use vstd::prelude::*;

use crypto::digest::Digest;

verus! {

/// The SHA-256 digest of a byte sequence, as the hash function defines it.
/// The result depends on the input bytes alone.
pub uninterp spec fn sha256_of(data: Seq<u8>) -> Seq<u8>;

/// Relies on crypto::sha2::Sha256 (the Digest trait's input/result):
/// the digest of the input bytes, 32 bytes long, a function of the input alone.
#[verifier::external_body]
pub fn sha256(data: &Vec<u8>) -> (r: Vec<u8>)
    ensures
        r@ == sha256_of(data@),
        r@.len() == 32,
{
    let mut sha = crypto::sha2::Sha256::new();
    sha.input(data.as_slice());
    let mut out = vec![0u8; 32];
    sha.result(&mut out);
    out
}

} // verus!
