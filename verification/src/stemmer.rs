use vstd::prelude::*;

use crate::bytes::{
    free_of, lemma_replace_rm, lower, lower_spec, replace, replace_spec, vec1, vec4,
};
use crate::marks::{
    apos_mark, br_mark, comma_mark, dot_mark, li_mark, quote_mark, sp_mark, tab_mark,
};

verus! {

/// The stem the English Snowball stemmer assigns to a word: a pure
/// function of the input bytes alone.
pub uninterp spec fn stem_of(word: Seq<u8>) -> Seq<u8>;

/// Relies on rust_stemmers::Stemmer::stem (English algorithm), which maps a
/// word to its stem deterministically, depending on the word alone.
#[verifier::external_body]
fn stem_bytes(word: &Vec<u8>) -> (r: Vec<u8>)
    ensures
        r@ == stem_of(word@),
{
    let text = String::from_utf8_lossy(word.as_slice()).into_owned();
    let stemmer = rust_stemmers::Stemmer::create(rust_stemmers::Algorithm::English);
    stemmer.stem(&text).as_bytes().to_vec()
}

/// A raw token lowercased and stripped of punctuation and leftover markup:
/// periods, commas and quotes vanish, tabs and break markers widen to a
/// space, list markup vanishes.
pub open spec fn clean_spec(t: Seq<u8>) -> Seq<u8> {
    replace_spec(
        replace_spec(
            replace_spec(
                replace_spec(
                    replace_spec(
                        replace_spec(lower_spec(t), dot_mark(), Seq::<u8>::empty()),
                        tab_mark(),
                        sp_mark(),
                    ),
                    comma_mark(),
                    Seq::<u8>::empty(),
                ),
                quote_mark(),
                Seq::<u8>::empty(),
            ),
            br_mark(),
            sp_mark(),
        ),
        li_mark(),
        Seq::<u8>::empty(),
    )
}

/// The indexed form of a raw token: cleaned, stemmed, and with any quote
/// the stemmer might hand back normalized away so the term is storable.
pub open spec fn term_spec(t: Seq<u8>) -> Seq<u8> {
    replace_spec(stem_of(clean_spec(t)), quote_mark(), apos_mark())
}

pub fn clean_token(t: &Vec<u8>) -> (out: Vec<u8>)
    ensures
        out@ == clean_spec(t@),
{
    let lowered = lower(t);
    let empty: Vec<u8> = Vec::new();
    let space = vec1(32);
    let a = replace(&lowered, &vec1(46), &empty);
    let b = replace(&a, &vec1(9), &space);
    let c = replace(&b, &vec1(44), &empty);
    let d = replace(&c, &vec1(34), &empty);
    let e = replace(&d, &vec4(60, 98, 114, 62), &space);
    replace(&e, &vec4(60, 108, 105, 62), &empty)
}

/// Normalize one raw token to the term under which it is indexed.
pub fn term_of_token(t: &Vec<u8>) -> (out: Vec<u8>)
    ensures
        out@ == term_spec(t@),
        free_of(out@, 34),
{
    let cleaned = clean_token(t);
    let stemmed = stem_bytes(&cleaned);
    let out = replace(&stemmed, &vec1(34), &vec1(39));
    proof {
        lemma_replace_rm(stemmed@, 34, apos_mark());
    }
    out
}

} // verus!
