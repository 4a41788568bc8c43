use vstd::prelude::*;

use crate::bytes::{dedup, dedup_spec, dup, lemma_lex_trans, lemma_lex_total, lex_le, lex_le_exec, views};
use crate::corpus::Corpus;
use crate::document::Document;
use crate::stemmer::{term_of_token, term_spec};
use crate::table::{amap, table_get};
use vstd::arithmetic::mul::{
    lemma_mul_inequality, lemma_mul_is_associative, lemma_mul_is_commutative,
    lemma_mul_nonnegative, lemma_mul_strictly_positive,
};
use vstd::arithmetic::power::pow;

verus! {

/// Scores are scaled by this factor to form an integer rank key.
pub const SCALE: u64 = 1_000_000_000;

/// The largest denominator the scorer works with exactly: any corpus
/// whose products stay under it is scored with no rounding at all.
pub const LIMIT: u128 = u128::MAX / 1_000_000_000;

// ---------------------------------------------------------------------------
// Integer products
// ---------------------------------------------------------------------------

pub open spec fn prod_tfs(fs: Seq<u64>) -> int
    decreases fs.len(),
{
    if fs.len() == 0 {
        1
    } else {
        prod_tfs(fs.drop_last()) * fs.last()
    }
}

pub open spec fn prod_others(fs: Seq<u128>) -> int
    decreases fs.len(),
{
    if fs.len() == 0 {
        1
    } else {
        prod_others(fs.drop_last()) * fs.last()
    }
}

proof fn lemma_prod_tfs_zero(fs: Seq<u64>, x: int)
    requires
        0 <= x < fs.len(),
        fs[x] == 0,
    ensures
        prod_tfs(fs) == 0,
    decreases fs.len(),
{
    if x == fs.len() - 1 {
        lemma_mul_is_commutative(prod_tfs(fs.drop_last()), fs.last() as int);
    } else {
        lemma_prod_tfs_zero(fs.drop_last(), x);
        assert(fs.drop_last()[x] == fs[x]);
    }
}

proof fn lemma_prod_others_zero(fs: Seq<u128>, x: int)
    requires
        0 <= x < fs.len(),
        fs[x] == 0,
    ensures
        prod_others(fs) == 0,
    decreases fs.len(),
{
    if x == fs.len() - 1 {
        lemma_mul_is_commutative(prod_others(fs.drop_last()), fs.last() as int);
    } else {
        lemma_prod_others_zero(fs.drop_last(), x);
        assert(fs.drop_last()[x] == fs[x]);
    }
}

proof fn lemma_prod_tfs_ge_one(fs: Seq<u64>)
    requires
        forall|x: int| 0 <= x < fs.len() ==> #[trigger] fs[x] >= 1,
    ensures
        prod_tfs(fs) >= 1,
    decreases fs.len(),
{
    if fs.len() > 0 {
        assert(forall|x: int|
            0 <= x < fs.drop_last().len() ==> #[trigger] fs.drop_last()[x] == fs[x]);
        lemma_prod_tfs_ge_one(fs.drop_last());
        assert(fs.last() >= 1);
        lemma_mul_strictly_positive(prod_tfs(fs.drop_last()), fs.last() as int);
    }
}

proof fn lemma_prod_others_ge_one(fs: Seq<u128>)
    requires
        forall|x: int| 0 <= x < fs.len() ==> #[trigger] fs[x] >= 1,
    ensures
        prod_others(fs) >= 1,
    decreases fs.len(),
{
    if fs.len() > 0 {
        assert(forall|x: int|
            0 <= x < fs.drop_last().len() ==> #[trigger] fs.drop_last()[x] == fs[x]);
        lemma_prod_others_ge_one(fs.drop_last());
        assert(fs.last() >= 1);
        lemma_mul_strictly_positive(prod_others(fs.drop_last()), fs.last() as int);
    }
}

/// A product of factors all at least one dominates the product of any
/// prefix of them.
proof fn lemma_prod_tfs_prefix(fs: Seq<u64>, j: int)
    requires
        0 <= j <= fs.len(),
        forall|x: int| 0 <= x < fs.len() ==> #[trigger] fs[x] >= 1,
    ensures
        prod_tfs(fs.take(j)) <= prod_tfs(fs),
        prod_tfs(fs.take(j)) >= 1,
    decreases fs.len() - j,
{
    assert(forall|x: int| 0 <= x < fs.take(j).len() ==> #[trigger] fs.take(j)[x] >= 1);
    lemma_prod_tfs_ge_one(fs.take(j));
    if j == fs.len() {
        assert(fs.take(j) =~= fs);
    } else {
        assert(fs.take(j + 1).drop_last() =~= fs.take(j));
        assert(fs.take(j + 1).last() == fs[j]);
        assert(prod_tfs(fs.take(j + 1)) == prod_tfs(fs.take(j)) * fs[j]);
        lemma_mul_inequality(1, fs[j] as int, prod_tfs(fs.take(j)));
        lemma_mul_is_commutative(prod_tfs(fs.take(j)), fs[j] as int);
        lemma_prod_tfs_prefix(fs, j + 1);
    }
}

proof fn lemma_prod_others_prefix(fs: Seq<u128>, j: int)
    requires
        0 <= j <= fs.len(),
        forall|x: int| 0 <= x < fs.len() ==> #[trigger] fs[x] >= 1,
    ensures
        prod_others(fs.take(j)) <= prod_others(fs),
        prod_others(fs.take(j)) >= 1,
    decreases fs.len() - j,
{
    assert(forall|x: int| 0 <= x < fs.take(j).len() ==> #[trigger] fs.take(j)[x] >= 1);
    lemma_prod_others_ge_one(fs.take(j));
    if j == fs.len() {
        assert(fs.take(j) =~= fs);
    } else {
        assert(fs.take(j + 1).drop_last() =~= fs.take(j));
        assert(fs.take(j + 1).last() == fs[j]);
        assert(prod_others(fs.take(j + 1)) == prod_others(fs.take(j)) * fs[j]);
        lemma_mul_inequality(1, fs[j] as int, prod_others(fs.take(j)));
        lemma_mul_is_commutative(prod_others(fs.take(j)), fs[j] as int);
        lemma_prod_others_prefix(fs, j + 1);
    }
}

// ---------------------------------------------------------------------------
// The posterior of one document, as an exact ratio
// ---------------------------------------------------------------------------

/// Numerator of the posterior: the likelihood products, cleared of the
/// shared denominators. Zero exactly when the document misses a query
/// stem or has no tokens.
pub open spec fn score_num_of(tfs: Seq<u64>, len: u64, w: u128) -> int {
    if len == 0 {
        0
    } else {
        prod_tfs(tfs) * pow(w as int, tfs.len() as nat)
    }
}

/// Denominator of the posterior: numerator plus the evidence mass of the
/// other documents, on the same cleared denominators.
pub open spec fn score_den_of(tfs: Seq<u64>, others: Seq<u128>, len: u64, ndocs: int, w: u128) -> int {
    score_num_of(tfs, len, w) + (ndocs - 1) * (if w == 0 {
        0
    } else {
        prod_others(others)
    }) * pow(len as int, tfs.len() as nat)
}

/// The integer rank key of a score: the ratio scaled and floored.
pub open spec fn rank_of(num: int, den: int) -> int {
    (num * SCALE) / den
}

proof fn lemma_prod_others_nonneg(fs: Seq<u128>)
    ensures
        prod_others(fs) >= 0,
    decreases fs.len(),
{
    if fs.len() > 0 {
        lemma_prod_others_nonneg(fs.drop_last());
        lemma_mul_nonnegative(prod_others(fs.drop_last()), fs.last() as int);
    }
}

proof fn lemma_prod_tfs_nonneg(fs: Seq<u64>)
    ensures
        prod_tfs(fs) >= 0,
    decreases fs.len(),
{
    if fs.len() > 0 {
        lemma_prod_tfs_nonneg(fs.drop_last());
        lemma_mul_nonnegative(prod_tfs(fs.drop_last()), fs.last() as int);
    }
}

/// The numerator is never negative.
proof fn lemma_num_nonneg(tfs: Seq<u64>, len: u64, w: u128)
    ensures
        score_num_of(tfs, len, w) >= 0,
{
    if len != 0 {
        lemma_prod_tfs_nonneg(tfs);
        assert(pow(w as int, tfs.len() as nat) >= 0) by {
            if w == 0 {
                if tfs.len() == 0 {
                    vstd::arithmetic::power::lemma_pow0(w as int);
                } else {
                    vstd::arithmetic::power::lemma0_pow(tfs.len() as nat);
                }
            } else {
                vstd::arithmetic::power::lemma_pow_positive(w as int, tfs.len() as nat);
            }
        }
        lemma_mul_nonnegative(prod_tfs(tfs), pow(w as int, tfs.len() as nat));
    }
}

/// The denominator dominates the numerator: the evidence term is never
/// negative.
pub proof fn lemma_den_ge_num(tfs: Seq<u64>, others: Seq<u128>, len: u64, ndocs: int, w: u128)
    requires
        ndocs >= 1,
    ensures
        score_den_of(tfs, others, len, ndocs, w) >= score_num_of(tfs, len, w),
{
    let ev: int = if w == 0 {
        0
    } else {
        prod_others(others)
    };
    lemma_prod_others_nonneg(others);
    assert(pow(len as int, tfs.len() as nat) >= 0) by {
        if len == 0 {
            if tfs.len() == 0 {
                vstd::arithmetic::power::lemma_pow0(len as int);
            } else {
                vstd::arithmetic::power::lemma0_pow(tfs.len() as nat);
            }
        } else {
            vstd::arithmetic::power::lemma_pow_positive(len as int, tfs.len() as nat);
        }
    }
    lemma_mul_nonnegative(ndocs - 1, ev);
    lemma_mul_nonnegative((ndocs - 1) * ev, pow(len as int, tfs.len() as nat));
}

/// Compute one document's exact posterior ratio, or nothing where its
/// products would pass the working limit.
pub fn score_parts(tfs: &Vec<u64>, others: &Vec<u128>, len: u64, ndocs: usize, w: u128) -> (r:
    Option<(u128, u128)>)
    requires
        tfs@.len() == others@.len(),
        ndocs >= 1,
        w <= LIMIT,
        len > 0 ==> w >= len as u128,
        forall|x: int| 0 <= x < others@.len() ==> #[trigger] others@[x] <= LIMIT,
    ensures
        ({
            let num = score_num_of(tfs@, len, w);
            let den = score_den_of(tfs@, others@, len, ndocs as int, w);
            &&& (num == 0 ==> r == Some((0u128, 0u128)))
            &&& (num > 0 && den <= LIMIT ==> r == Some((num as u128, den as u128)))
            &&& (num > 0 && den > LIMIT ==> r is None)
        }),
{
    let ghost num = score_num_of(tfs@, len, w);
    let ghost den = score_den_of(tfs@, others@, len, ndocs as int, w);
    let k = tfs.len();
    proof {
        lemma_den_ge_num(tfs@, others@, len, ndocs as int, w);
    }
    if len == 0 {
        return Some((0, 0));
    }
    let mut x: usize = 0;
    while x < k
        invariant
            x <= k,
            k == tfs@.len(),
            len > 0,
            num == score_num_of(tfs@, len, w),
            forall|y: int| 0 <= y < x ==> #[trigger] tfs@[y] >= 1,
        decreases k - x,
    {
        if tfs[x] == 0 {
            proof {
                lemma_prod_tfs_zero(tfs@, x as int);
                assert(num == prod_tfs(tfs@) * pow(w as int, tfs@.len() as nat));
            }
            return Some((0, 0));
        }
        x += 1;
    }
    // all term counts are at least one, so the numerator is positive
    proof {
        lemma_prod_tfs_ge_one(tfs@);
        vstd::arithmetic::power::lemma_pow_positive(w as int, tfs@.len() as nat);
        lemma_mul_strictly_positive(prod_tfs(tfs@), pow(w as int, tfs@.len() as nat));
        assert(num > 0);
        assert(pow(w as int, tfs@.len() as nat) >= 1);
        lemma_mul_inequality(1, pow(w as int, tfs@.len() as nat), prod_tfs(tfs@));
        lemma_mul_is_commutative(prod_tfs(tfs@), pow(w as int, tfs@.len() as nat));
        assert(prod_tfs(tfs@) <= num);
    }
    let mut acc: u128 = 1;
    let mut j: usize = 0;
    proof {
        assert(tfs@.take(0) =~= Seq::<u64>::empty());
    }
    while j < k
        invariant
            j <= k,
            k == tfs@.len(),
            forall|y: int| 0 <= y < k ==> #[trigger] tfs@[y] >= 1,
            acc == prod_tfs(tfs@.take(j as int)),
            acc <= LIMIT,
            num == score_num_of(tfs@, len, w),
            den == score_den_of(tfs@, others@, len, ndocs as int, w),
            den >= num,
            prod_tfs(tfs@) <= num,
            len > 0,
        decreases k - j,
    {
        proof {
            assert(tfs@.take(j + 1).drop_last() =~= tfs@.take(j as int));
            assert(tfs@.take(j + 1).last() == tfs@[j as int]);
            lemma_prod_tfs_prefix(tfs@, j + 1);
        }
        let stepped = acc.checked_mul(tfs[j] as u128);
        match stepped {
            Some(v) => {
                if v > LIMIT {
                    return None;
                }
                acc = v;
            },
            None => {
                proof {
                    assert(prod_tfs(tfs@.take(j + 1)) > u128::MAX);
                }
                return None;
            },
        }
        j += 1;
    }
    proof {
        assert(tfs@.take(k as int) =~= tfs@);
    }
    // fold in the corpus token total, once per query stem
    let mut m: usize = 0;
    proof {
        vstd::arithmetic::power::lemma_pow0(w as int);
    }
    while m < k
        invariant
            m <= k,
            k == tfs@.len(),
            w >= 1,
            w <= LIMIT,
            acc == prod_tfs(tfs@) * pow(w as int, m as nat),
            acc <= LIMIT,
            acc >= 1,
            num == score_num_of(tfs@, len, w),
            den == score_den_of(tfs@, others@, len, ndocs as int, w),
            den >= num,
            num == prod_tfs(tfs@) * pow(w as int, k as nat),
            prod_tfs(tfs@) >= 1,
            len > 0,
        decreases k - m,
    {
        proof {
            vstd::arithmetic::power::lemma_pow_adds(w as int, (m + 1) as nat, (k - m - 1) as nat);
            vstd::arithmetic::power::lemma_pow_adds(w as int, m as nat, 1);
            vstd::arithmetic::power::lemma_pow1(w as int);
            vstd::arithmetic::power::lemma_pow_positive(w as int, (k - m - 1) as nat);
            vstd::arithmetic::power::lemma_pow_positive(w as int, m as nat);
            assert(pow(w as int, (m + 1) as nat) == pow(w as int, m as nat) * w);
            assert(pow(w as int, k as nat) == pow(w as int, (m + 1) as nat) * pow(
                w as int,
                (k - m - 1) as nat,
            ));
            assert(acc * w == prod_tfs(tfs@) * pow(w as int, (m + 1) as nat))
                by (nonlinear_arith)
                requires
                    acc == prod_tfs(tfs@) * pow(w as int, m as nat),
                    pow(w as int, (m + 1) as nat) == pow(w as int, m as nat) * w,
            ;
            assert(acc * w <= num)
                by (nonlinear_arith)
                requires
                    num == prod_tfs(tfs@) * pow(w as int, k as nat),
                    pow(w as int, k as nat) == pow(w as int, (m + 1) as nat) * pow(
                        w as int,
                        (k - m - 1) as nat,
                    ),
                    acc * w == prod_tfs(tfs@) * pow(w as int, (m + 1) as nat),
                    pow(w as int, (k - m - 1) as nat) >= 1,
                    acc >= 1,
                    w >= 1,
            ;
        }
        let stepped = acc.checked_mul(w);
        match stepped {
            Some(v) => {
                if v > LIMIT {
                    return None;
                }
                acc = v;
                proof {
                    lemma_mul_strictly_positive(
                        prod_tfs(tfs@),
                        pow(w as int, (m + 1) as nat),
                    );
                    vstd::arithmetic::power::lemma_pow_positive(w as int, (m + 1) as nat);
                }
            },
            None => {
                return None;
            },
        }
        m += 1;
    }
    let numv = acc;
    proof {
        assert(numv == num);
    }
    // the evidence term
    if ndocs == 1 {
        proof {
            let ev: int = if w == 0 {
                0
            } else {
                prod_others(others@)
            };
            assert((ndocs - 1) * ev == 0) by (nonlinear_arith)
                requires
                    ndocs == 1,
            ;
            assert(((ndocs - 1) * ev) * pow(len as int, tfs@.len() as nat) == 0)
                by (nonlinear_arith)
                requires
                    (ndocs - 1) * ev == 0,
            ;
            assert(den == num);
        }
        return Some((numv, numv));
    }
    let mut x2: usize = 0;
    while x2 < k
        invariant
            x2 <= k,
            k == others@.len(),
            k == tfs@.len(),
            len > 0,
            w >= 1,
            numv == num,
            num == score_num_of(tfs@, len, w),
            den == score_den_of(tfs@, others@, len, ndocs as int, w),
            num > 0,
            num <= LIMIT,
            forall|y: int| 0 <= y < x2 ==> #[trigger] others@[y] >= 1,
        decreases k - x2,
    {
        if others[x2] == 0 {
            proof {
                lemma_prod_others_zero(others@, x2 as int);
                assert((ndocs - 1) * prod_others(others@) == 0) by (nonlinear_arith)
                    requires
                        prod_others(others@) == 0,
                ;
                assert(((ndocs - 1) * prod_others(others@)) * pow(len as int, tfs@.len() as nat)
                    == 0) by (nonlinear_arith)
                    requires
                        (ndocs - 1) * prod_others(others@) == 0,
                ;
                assert(den == num);
            }
            return Some((numv, numv));
        }
        x2 += 1;
    }
    let ghost term2 = (ndocs - 1) * (if w == 0 {
        0int
    } else {
        prod_others(others@)
    }) * pow(len as int, tfs@.len() as nat);
    proof {
        lemma_prod_others_ge_one(others@);
        vstd::arithmetic::power::lemma_pow_positive(len as int, k as nat);
        assert(term2 == (ndocs - 1) * prod_others(others@) * pow(len as int, k as nat));
        // every partial product along the way is bounded by term2, itself at most den - num
        lemma_mul_inequality(1, ndocs - 1, prod_others(others@));
        lemma_mul_is_commutative(prod_others(others@), ndocs - 1);
        lemma_mul_inequality(1, pow(len as int, k as nat), (ndocs - 1) * prod_others(others@));
        lemma_mul_is_commutative((ndocs - 1) * prod_others(others@), pow(len as int, k as nat));
        assert(prod_others(others@) <= term2);
        assert(den == num + term2);
    }
    let mut bacc: u128 = 1;
    let mut j2: usize = 0;
    proof {
        assert(others@.take(0) =~= Seq::<u128>::empty());
    }
    while j2 < k
        invariant
            j2 <= k,
            k == others@.len(),
            k == tfs@.len(),
            forall|y: int| 0 <= y < k ==> #[trigger] others@[y] >= 1,
            bacc == prod_others(others@.take(j2 as int)),
            bacc <= LIMIT,
            num == score_num_of(tfs@, len, w),
            den == score_den_of(tfs@, others@, len, ndocs as int, w),
            den == num + term2,
            num > 0,
            prod_others(others@) <= term2,
            term2 == (ndocs - 1) * prod_others(others@) * pow(len as int, k as nat),
            ndocs >= 2,
            len > 0,
        decreases k - j2,
    {
        proof {
            assert(others@.take(j2 + 1).drop_last() =~= others@.take(j2 as int));
            assert(others@.take(j2 + 1).last() == others@[j2 as int]);
            lemma_prod_others_prefix(others@, j2 + 1);
        }
        let stepped = bacc.checked_mul(others[j2]);
        match stepped {
            Some(v) => {
                if v > LIMIT {
                    return None;
                }
                bacc = v;
            },
            None => {
                proof {
                    assert(prod_others(others@.take(j2 + 1)) > u128::MAX);
                }
                return None;
            },
        }
        j2 += 1;
    }
    proof {
        assert(others@.take(k as int) =~= others@);
    }
    // fold in this document's length, once per query stem
    let mut m2: usize = 0;
    proof {
        vstd::arithmetic::power::lemma_pow0(len as int);
    }
    while m2 < k
        invariant
            m2 <= k,
            k == others@.len(),
            k == tfs@.len(),
            len >= 1,
            bacc == prod_others(others@) * pow(len as int, m2 as nat),
            bacc <= LIMIT,
            bacc >= 1,
            num == score_num_of(tfs@, len, w),
            den == score_den_of(tfs@, others@, len, ndocs as int, w),
            den == num + term2,
            num > 0,
            term2 == (ndocs - 1) * prod_others(others@) * pow(len as int, k as nat),
            prod_others(others@) >= 1,
            ndocs >= 2,
        decreases k - m2,
    {
        proof {
            vstd::arithmetic::power::lemma_pow_adds(
                len as int,
                (m2 + 1) as nat,
                (k - m2 - 1) as nat,
            );
            vstd::arithmetic::power::lemma_pow_adds(len as int, m2 as nat, 1);
            vstd::arithmetic::power::lemma_pow1(len as int);
            vstd::arithmetic::power::lemma_pow_positive(len as int, (k - m2 - 1) as nat);
            vstd::arithmetic::power::lemma_pow_positive(len as int, m2 as nat);
            vstd::arithmetic::power::lemma_pow_positive(len as int, (m2 + 1) as nat);
            assert(pow(len as int, (m2 + 1) as nat) == pow(len as int, m2 as nat) * len);
            assert(pow(len as int, k as nat) == pow(len as int, (m2 + 1) as nat) * pow(
                len as int,
                (k - m2 - 1) as nat,
            ));
            assert(bacc * len == prod_others(others@) * pow(len as int, (m2 + 1) as nat))
                by (nonlinear_arith)
                requires
                    bacc == prod_others(others@) * pow(len as int, m2 as nat),
                    pow(len as int, (m2 + 1) as nat) == pow(len as int, m2 as nat) * len,
            ;
            assert(bacc * len <= term2)
                by (nonlinear_arith)
                requires
                    term2 == (ndocs - 1) * prod_others(others@) * pow(len as int, k as nat),
                    pow(len as int, k as nat) == pow(len as int, (m2 + 1) as nat) * pow(
                        len as int,
                        (k - m2 - 1) as nat,
                    ),
                    bacc * len == prod_others(others@) * pow(len as int, (m2 + 1) as nat),
                    pow(len as int, (k - m2 - 1) as nat) >= 1,
                    bacc >= 1,
                    len >= 1,
                    ndocs >= 2,
                    prod_others(others@) >= 1,
                    pow(len as int, (m2 + 1) as nat) >= 1,
            ;
        }
        let stepped = bacc.checked_mul(len as u128);
        match stepped {
            Some(v) => {
                if v > LIMIT {
                    return None;
                }
                bacc = v;
                proof {
                    lemma_mul_strictly_positive(
                        prod_others(others@),
                        pow(len as int, (m2 + 1) as nat),
                    );
                    vstd::arithmetic::power::lemma_pow_positive(len as int, (m2 + 1) as nat);
                }
            },
            None => {
                return None;
            },
        }
        m2 += 1;
    }
    // multiply in the document prior's complement, the other-document count
    let nm1 = (ndocs - 1) as u128;
    proof {
        lemma_mul_inequality(1, pow(len as int, k as nat), prod_others(others@));
        lemma_mul_is_commutative(prod_others(others@), pow(len as int, k as nat));
        lemma_mul_is_commutative(ndocs - 1, prod_others(others@) * pow(len as int, k as nat));
        lemma_mul_is_associative(ndocs - 1, prod_others(others@), pow(len as int, k as nat));
        lemma_mul_inequality(1, ndocs - 1, prod_others(others@) * pow(len as int, k as nat));
        assert(bacc <= term2);
    }
    let t2 = match bacc.checked_mul(nm1) {
        Some(v) => {
            proof {
                lemma_mul_is_commutative(bacc as int, ndocs - 1);
                assert(v == term2);
            }
            v
        },
        None => {
            proof {
                lemma_mul_is_commutative(bacc as int, ndocs - 1);
            }
            return None;
        },
    };
    if t2 > LIMIT {
        return None;
    }
    proof {
        assert((LIMIT as int) * 2 < u128::MAX as int);
    }
    let denv = numv + t2;
    if denv > LIMIT {
        return None;
    }
    Some((numv, denv))
}


// ---------------------------------------------------------------------------
// Corpus-level score ingredients
// ---------------------------------------------------------------------------

/// How often a document carries a term.
pub open spec fn tf_of(d: Document, s: Seq<u8>) -> u64 {
    if amap(d.terms@).contains_key(s) {
        amap(d.terms@)[s]
    } else {
        0
    }
}

/// The token count of the whole corpus.
pub open spec fn total_len(docs: Seq<(Vec<u8>, Document)>) -> int
    decreases docs.len(),
{
    if docs.len() == 0 {
        0
    } else {
        total_len(docs.drop_last()) + docs.last().1.length
    }
}

/// How often a term occurs over the whole corpus.
pub open spec fn sum_tf(docs: Seq<(Vec<u8>, Document)>, s: Seq<u8>) -> int
    decreases docs.len(),
{
    if docs.len() == 0 {
        0
    } else {
        sum_tf(docs.drop_last(), s) + tf_of(docs.last().1, s)
    }
}

pub open spec fn tf_seq(d: Document, qs: Seq<Seq<u8>>) -> Seq<u64> {
    qs.map_values(|s: Seq<u8>| tf_of(d, s))
}

/// Per query stem, how often it occurs in every other document.
pub open spec fn other_seq(docs: Seq<(Vec<u8>, Document)>, i: int, qs: Seq<Seq<u8>>) -> Seq<
    u128,
> {
    qs.map_values(|s: Seq<u8>| (sum_tf(docs, s) - tf_of(docs[i].1, s)) as u128)
}

pub open spec fn doc_num(docs: Seq<(Vec<u8>, Document)>, i: int, qs: Seq<Seq<u8>>) -> int {
    score_num_of(tf_seq(docs[i].1, qs), docs[i].1.length, total_len(docs) as u128)
}

pub open spec fn doc_den(docs: Seq<(Vec<u8>, Document)>, i: int, qs: Seq<Seq<u8>>) -> int {
    score_den_of(
        tf_seq(docs[i].1, qs),
        other_seq(docs, i, qs),
        docs[i].1.length,
        docs.len() as int,
        total_len(docs) as u128,
    )
}

/// The stems a query is matched by: each term normalized, duplicates
/// dropped.
pub open spec fn query_stems_spec(ts: Seq<Seq<u8>>) -> Seq<Seq<u8>> {
    dedup_spec(ts.map_values(|t: Seq<u8>| term_spec(t)))
}

/// The products the scorer needs stay under its working limit.
pub open spec fn fits(docs: Seq<(Vec<u8>, Document)>, qs: Seq<Seq<u8>>) -> bool {
    &&& total_len(docs) <= LIMIT
    &&& (forall|x: int| 0 <= x < qs.len() ==> sum_tf(docs, #[trigger] qs[x]) <= LIMIT)
    &&& (forall|i: int|
        0 <= i < docs.len() && #[trigger] doc_num(docs, i, qs) > 0 ==> doc_den(docs, i, qs)
            <= LIMIT)
}

proof fn lemma_total_prefix(docs: Seq<(Vec<u8>, Document)>, j: int)
    requires
        0 <= j <= docs.len(),
    ensures
        0 <= total_len(docs.take(j)) <= total_len(docs),
    decreases docs.len() - j,
{
    if j == docs.len() {
        assert(docs.take(j) =~= docs);
        lemma_total_nonneg(docs);
    } else {
        assert(docs.take(j + 1).drop_last() =~= docs.take(j));
        assert(docs.take(j + 1).last() == docs[j]);
        lemma_total_prefix(docs, j + 1);
        lemma_total_nonneg(docs.take(j));
    }
}

pub proof fn lemma_total_nonneg(docs: Seq<(Vec<u8>, Document)>)
    ensures
        total_len(docs) >= 0,
    decreases docs.len(),
{
    if docs.len() > 0 {
        lemma_total_nonneg(docs.drop_last());
    }
}

pub proof fn lemma_total_at(docs: Seq<(Vec<u8>, Document)>, i: int)
    requires
        0 <= i < docs.len(),
    ensures
        docs[i].1.length <= total_len(docs),
    decreases docs.len(),
{
    if i == docs.len() - 1 {
        lemma_total_nonneg(docs.drop_last());
    } else {
        lemma_total_at(docs.drop_last(), i);
        assert(docs.drop_last()[i] == docs[i]);
    }
}

proof fn lemma_sum_tf_nonneg(docs: Seq<(Vec<u8>, Document)>, s: Seq<u8>)
    ensures
        sum_tf(docs, s) >= 0,
    decreases docs.len(),
{
    if docs.len() > 0 {
        lemma_sum_tf_nonneg(docs.drop_last(), s);
    }
}

proof fn lemma_sum_tf_prefix(docs: Seq<(Vec<u8>, Document)>, s: Seq<u8>, j: int)
    requires
        0 <= j <= docs.len(),
    ensures
        0 <= sum_tf(docs.take(j), s) <= sum_tf(docs, s),
    decreases docs.len() - j,
{
    if j == docs.len() {
        assert(docs.take(j) =~= docs);
        lemma_sum_tf_nonneg(docs, s);
    } else {
        assert(docs.take(j + 1).drop_last() =~= docs.take(j));
        assert(docs.take(j + 1).last() == docs[j]);
        lemma_sum_tf_prefix(docs, s, j + 1);
        lemma_sum_tf_nonneg(docs.take(j), s);
    }
}

proof fn lemma_sum_tf_at(docs: Seq<(Vec<u8>, Document)>, s: Seq<u8>, i: int)
    requires
        0 <= i < docs.len(),
    ensures
        tf_of(docs[i].1, s) <= sum_tf(docs, s),
    decreases docs.len(),
{
    if i == docs.len() - 1 {
        lemma_sum_tf_nonneg(docs.drop_last(), s);
    } else {
        lemma_sum_tf_at(docs.drop_last(), s, i);
        assert(docs.drop_last()[i] == docs[i]);
    }
}

// ---------------------------------------------------------------------------
// Hits
// ---------------------------------------------------------------------------

/// One ranked search result: a document id with its exact score ratio
/// and its scaled integer rank key.
pub struct Hit {
    pub id: Vec<u8>,
    pub num: u128,
    pub den: u128,
    pub rank: u64,
}

pub struct HitV {
    pub id: Seq<u8>,
    pub num: u128,
    pub den: u128,
    pub rank: u64,
}

impl View for Hit {
    type V = HitV;

    open spec fn view(&self) -> HitV {
        HitV { id: self.id@, num: self.num, den: self.den, rank: self.rank }
    }
}

pub open spec fn hviews(l: Seq<Hit>) -> Seq<HitV> {
    l.map_values(|h: Hit| h@)
}

/// Result order: higher rank first, ties by id.
pub open spec fn hit_le(a: HitV, b: HitV) -> bool {
    a.rank > b.rank || (a.rank == b.rank && lex_le(a.id, b.id))
}

pub open spec fn sorted_hits(hv: Seq<HitV>) -> bool {
    forall|x: int, y: int| 0 <= x < y < hv.len() ==> hit_le(#[trigger] hv[x], #[trigger] hv[y])
}

proof fn lemma_hit_le_total(a: HitV, b: HitV)
    ensures
        hit_le(a, b) || hit_le(b, a),
{
    lemma_lex_total(a.id, b.id);
}

proof fn lemma_hit_le_trans(a: HitV, b: HitV, c: HitV)
    requires
        hit_le(a, b),
        hit_le(b, c),
    ensures
        hit_le(a, c),
{
    if a.rank == b.rank && b.rank == c.rank {
        lemma_lex_trans(a.id, b.id, c.id);
    }
}

fn hit_le_exec(a: &Hit, b: &Hit) -> (r: bool)
    ensures
        r == hit_le(a@, b@),
{
    if a.rank > b.rank {
        true
    } else if a.rank == b.rank {
        lex_le_exec(&a.id, &b.id)
    } else {
        false
    }
}

fn dup_hit(h: &Hit) -> (r: Hit)
    ensures
        r@ == h@,
{
    Hit { id: dup(&h.id), num: h.num, den: h.den, rank: h.rank }
}

/// The hit a document produces, when its score is positive.
pub open spec fn doc_hit(docs: Seq<(Vec<u8>, Document)>, i: int, qs: Seq<Seq<u8>>) -> HitV {
    HitV {
        id: docs[i].0@,
        num: doc_num(docs, i, qs) as u128,
        den: doc_den(docs, i, qs) as u128,
        rank: rank_of(doc_num(docs, i, qs), doc_den(docs, i, qs)) as u64,
    }
}

/// The hits of the first `n` documents with a positive score, in corpus
/// order.
pub open spec fn pos_hits_upto(docs: Seq<(Vec<u8>, Document)>, qs: Seq<Seq<u8>>, n: int) -> Seq<
    HitV,
>
    decreases n,
{
    if n <= 0 {
        Seq::<HitV>::empty()
    } else {
        let p = pos_hits_upto(docs, qs, n - 1);
        if doc_num(docs, n - 1, qs) > 0 {
            p.push(doc_hit(docs, n - 1, qs))
        } else {
            p
        }
    }
}

/// Every document with a positive score, as a hit, in corpus order.
pub open spec fn pos_hits(docs: Seq<(Vec<u8>, Document)>, qs: Seq<Seq<u8>>) -> Seq<HitV> {
    pos_hits_upto(docs, qs, docs.len() as int)
}

proof fn lemma_pos_upto_member(docs: Seq<(Vec<u8>, Document)>, qs: Seq<Seq<u8>>, i: int, n: int)
    requires
        0 <= i < n <= docs.len(),
        doc_num(docs, i, qs) > 0,
    ensures
        pos_hits_upto(docs, qs, n).contains(doc_hit(docs, i, qs)),
    decreases n,
{
    if n == i + 1 {
        let p = pos_hits_upto(docs, qs, i);
        assert(pos_hits_upto(docs, qs, n)[p.len() as int] == doc_hit(docs, i, qs));
    } else {
        lemma_pos_upto_member(docs, qs, i, n - 1);
        let p = pos_hits_upto(docs, qs, n - 1);
        let y = choose|y: int| 0 <= y < p.len() && p[y] == doc_hit(docs, i, qs);
        assert(pos_hits_upto(docs, qs, n)[y] == doc_hit(docs, i, qs));
    }
}

// ---------------------------------------------------------------------------
// Sorting
// ---------------------------------------------------------------------------

proof fn lemma_insert_to_multiset(s: Seq<HitV>, p: int, h: HitV)
    requires
        0 <= p <= s.len(),
    ensures
        s.insert(p, h).to_multiset() =~= s.to_multiset().insert(h),
{
    broadcast use vstd::seq_lib::group_to_multiset_ensures;

    let t = s.insert(p, h);
    assert(t.remove(p) =~= s);
    assert(t[p] == h);
    assert(t.remove(p).to_multiset() =~= t.to_multiset().remove(t[p]));
    assert(t.contains(h));
    assert(t.to_multiset().count(h) > 0);
    assert forall|x: HitV| true implies t.to_multiset().count(x) == s.to_multiset().insert(
        h,
    ).count(x) by {
        if x == h {
            assert(s.to_multiset().count(h) == t.to_multiset().remove(h).count(h));
        } else {
            assert(s.to_multiset().count(x) == t.to_multiset().remove(h).count(x));
        }
    }
}

proof fn lemma_take_counts(s: Seq<HitV>, m: int)
    requires
        0 <= m <= s.len(),
    ensures
        forall|h: HitV|
            #[trigger] s.take(m).to_multiset().count(h) <= s.to_multiset().count(h),
    decreases s.len() - m,
{
    broadcast use vstd::seq_lib::group_to_multiset_ensures;

    if m == s.len() {
        assert(s.take(m) =~= s);
        assert forall|h: HitV|
            #[trigger] s.take(m).to_multiset().count(h) <= s.to_multiset().count(h) by {
            assert(s.take(m).to_multiset() == s.to_multiset());
        }
    } else {
        lemma_take_counts(s, m + 1);
        assert(s.take(m + 1) =~= s.take(m).push(s[m]));
        assert(s.take(m).push(s[m]).to_multiset() =~= s.take(m).to_multiset().insert(s[m]));
        assert forall|h: HitV|
            #[trigger] s.take(m).to_multiset().count(h) <= s.to_multiset().count(h) by {
            assert(s.take(m + 1).to_multiset().count(h) <= s.to_multiset().count(h));
            assert(s.take(m + 1).to_multiset() == s.take(m).to_multiset().insert(s[m]));
            assert(s.take(m).to_multiset().insert(s[m]).count(h) >= s.take(
                m,
            ).to_multiset().count(h));
        }
    }
}

/// Place one hit into a sorted result list, keeping it sorted.
fn insert_hit(v: &mut Vec<Hit>, h: Hit)
    requires
        sorted_hits(hviews(old(v)@)),
    ensures
        sorted_hits(hviews(final(v)@)),
        exists|p: int|
            0 <= p <= old(v)@.len() && hviews(final(v)@) == hviews(old(v)@).insert(p, h@),
{
    let ghost hv = hviews(v@);
    let mut p: usize = 0;
    while p < v.len() && hit_le_exec(&v[p], &h)
        invariant
            p <= v@.len(),
            hv == hviews(v@),
            sorted_hits(hv),
            forall|x: int| 0 <= x < p ==> hit_le(#[trigger] hv[x], h@),
        decreases v@.len() - p,
    {
        p += 1;
    }
    let ghost pp = p as int;
    proof {
        if pp < hv.len() {
            assert(!hit_le(hv[pp], h@));
            lemma_hit_le_total(hv[pp], h@);
            assert(hit_le(h@, hv[pp]));
        }
    }
    v.insert(p, h);
    proof {
        assert(hviews(v@) =~~= hv.insert(pp, h@));
        let nv = hviews(v@);
        assert forall|x: int, y: int| 0 <= x < y < nv.len() implies hit_le(
            #[trigger] nv[x],
            #[trigger] nv[y],
        ) by {
            if y < pp {
                assert(nv[x] == hv[x] && nv[y] == hv[y]);
            } else if x < pp && y == pp {
                assert(nv[x] == hv[x] && nv[y] == h@);
            } else if x < pp && y > pp {
                assert(nv[x] == hv[x] && nv[y] == hv[y - 1]);
                if y - 1 == x {
                    assert(hit_le(hv[x], h@));
                    assert(hit_le(h@, hv[pp]));
                    lemma_hit_le_trans(hv[x], h@, hv[pp]);
                } else {
                    assert(hit_le(hv[x], hv[y - 1]));
                }
            } else if x == pp {
                assert(nv[x] == h@ && nv[y] == hv[y - 1]);
                assert(hit_le(h@, hv[pp]));
                if y - 1 == pp {
                } else {
                    assert(hit_le(hv[pp], hv[y - 1]));
                    lemma_hit_le_trans(h@, hv[pp], hv[y - 1]);
                }
            } else {
                assert(nv[x] == hv[x - 1] && nv[y] == hv[y - 1]);
            }
        }
    }
}

// ---------------------------------------------------------------------------
// Search
// ---------------------------------------------------------------------------

#[derive(Debug)]
pub enum SearchError {
    /// The store holds no documents at all.
    EmptyCorpus,
    /// A score product passed the exact-arithmetic limit.
    ScoreOverflow,
    /// No document scores above zero.
    NoResults,
}

/// Normalize the query terms to the stems they are matched by.
pub fn query_stems(terms: &Vec<Vec<u8>>) -> (out: Vec<Vec<u8>>)
    ensures
        views(out@) == query_stems_spec(views(terms@)),
{
    let mut mapped: Vec<Vec<u8>> = Vec::new();
    let mut i: usize = 0;
    proof {
        assert(views(mapped@) =~~= views(terms@).take(0).map_values(|t: Seq<u8>| term_spec(t)));
    }
    while i < terms.len()
        invariant
            i <= terms@.len(),
            views(mapped@) == views(terms@).take(i as int).map_values(
                |t: Seq<u8>| term_spec(t),
            ),
        decreases terms@.len() - i,
    {
        let ghost mv = views(mapped@);
        let t = term_of_token(&terms[i]);
        mapped.push(t);
        proof {
            assert(views(mapped@) =~~= mv.push(term_spec(terms@[i as int]@)));
            assert(views(terms@).take(i + 1).map_values(|t: Seq<u8>| term_spec(t)) =~~= mv.push(
                term_spec(terms@[i as int]@),
            ));
        }
        i += 1;
    }
    proof {
        assert(views(terms@).take(terms@.len() as int) =~~= views(terms@));
    }
    dedup(&mapped)
}

impl Corpus {
    /// Rank every document of the corpus against the query terms and
    /// return the best `limit` of them, best first.
    ///
    /// A result is exactly the documents whose posterior is positive,
    /// sorted by descending rank key with ties broken by ascending id,
    /// cut to `limit` entries.
    pub fn search(&self, terms: &Vec<Vec<u8>>, limit: usize) -> (r: Result<Vec<Hit>, SearchError>)
        requires
            self.inv(),
        ensures
            ({
                let docs = self.documents@;
                let qs = query_stems_spec(views(terms@));
                let ph = pos_hits(docs, qs);
                &&& ((r matches Err(e) && e is EmptyCorpus) <==> docs.len() == 0)
                &&& docs.len() > 0 ==> ((r matches Err(e) && e is ScoreOverflow) <==> !fits(
                    docs,
                    qs,
                ))
                &&& (docs.len() > 0 && fits(docs, qs)) ==> ((r matches Err(e) && e is NoResults)
                    <==> ph.len() == 0)
                &&& (r matches Ok(hits) ==> ({
                    let hv = hviews(hits@);
                    &&& docs.len() > 0
                    &&& fits(docs, qs)
                    &&& hv.len() == if limit <= ph.len() {
                        limit as int
                    } else {
                        ph.len() as int
                    }
                    &&& sorted_hits(hv)
                    &&& (forall|h: HitV|
                        #[trigger] hv.to_multiset().count(h) <= ph.to_multiset().count(h))
                    &&& (forall|x: int| 0 <= x < hv.len() ==> ph.contains(#[trigger] hv[x]))
                    &&& (forall|i: int|
                        0 <= i < docs.len() && #[trigger] doc_num(docs, i, qs) > 0 ==> ((exists|
                            x: int,
                        |
                            0 <= x < hv.len() && hv[x] == doc_hit(docs, i, qs)) || (forall|x: int|
                            0 <= x < hv.len() ==> hit_le(#[trigger] hv[x], doc_hit(docs, i, qs)))))
                }))
            }),
    {
        let ghost docs = self.documents@;
        let ghost qs = query_stems_spec(views(terms@));
        let ndocs = self.documents.len();
        if ndocs == 0 {
            return Err(SearchError::EmptyCorpus);
        }
        let stems = query_stems(terms);
        proof {
            assert(views(stems@) == qs);
        }
        // the corpus token total
        let mut w: u128 = 0;
        let mut i: usize = 0;
        proof {
            assert(docs.take(0) =~= Seq::<(Vec<u8>, Document)>::empty());
        }
        while i < ndocs
            invariant
                i <= ndocs,
                ndocs == docs.len(),
                ndocs >= 1,
                docs == self.documents@,
                w == total_len(docs.take(i as int)),
                w <= LIMIT,
            decreases ndocs - i,
        {
            proof {
                assert(docs.take(i + 1).drop_last() =~= docs.take(i as int));
                assert(docs.take(i + 1).last() == docs[i as int]);
                lemma_total_prefix(docs, i + 1);
            }
            let stepped = w.checked_add(self.documents[i].1.length as u128);
            match stepped {
                Some(v) => {
                    if v > LIMIT {
                        return Err(SearchError::ScoreOverflow);
                    }
                    w = v;
                },
                None => {
                    proof {
                        assert(total_len(docs.take(i + 1)) > u128::MAX);
                    }
                    return Err(SearchError::ScoreOverflow);
                },
            }
            i += 1;
        }
        proof {
            assert(docs.take(docs.len() as int) =~= docs);
        }
        // per-stem corpus-wide occurrence totals
        let mut totals: Vec<u128> = Vec::new();
        let mut x: usize = 0;
        while x < stems.len()
            invariant
                x <= stems@.len(),
                docs == self.documents@,
                ndocs == docs.len(),
                ndocs >= 1,
                self.inv(),
                qs == views(stems@),
                qs == query_stems_spec(views(terms@)),
                totals@.len() == x,
                forall|y: int|
                    0 <= y < x ==> #[trigger] totals@[y] == sum_tf(docs, qs[y]) && totals@[y]
                        <= LIMIT,
            decreases stems@.len() - x,
        {
            let mut acc: u128 = 0;
            let mut j: usize = 0;
            proof {
                assert(docs.take(0) =~= Seq::<(Vec<u8>, Document)>::empty());
            }
            while j < ndocs
                invariant
                    j <= ndocs,
                    ndocs == docs.len(),
                    ndocs >= 1,
                    docs == self.documents@,
                    self.inv(),
                    x < stems@.len(),
                    qs == views(stems@),
                qs == query_stems_spec(views(terms@)),
                    acc == sum_tf(docs.take(j as int), stems@[x as int]@),
                    acc <= LIMIT,
                decreases ndocs - j,
            {
                let tf = match table_get(&self.documents[j].1.terms, &stems[x]) {
                    Some(v) => v,
                    None => 0,
                };
                proof {
                    assert(docs.take(j + 1).drop_last() =~= docs.take(j as int));
                    assert(docs.take(j + 1).last() == docs[j as int]);
                    assert(tf == tf_of(docs[j as int].1, stems@[x as int]@));
                    lemma_sum_tf_prefix(docs, stems@[x as int]@, j + 1);
                }
                let stepped = acc.checked_add(tf as u128);
                match stepped {
                    Some(v) => {
                        if v > LIMIT {
                            proof {
                                assert(sum_tf(docs, qs[x as int]) > LIMIT);
                                assert(!fits(docs, qs));
                            }
                            return Err(SearchError::ScoreOverflow);
                        }
                        acc = v;
                    },
                    None => {
                        proof {
                            assert(sum_tf(docs.take(j + 1), stems@[x as int]@) > u128::MAX);
                            assert(sum_tf(docs, qs[x as int]) > LIMIT);
                            assert(!fits(docs, qs));
                        }
                        return Err(SearchError::ScoreOverflow);
                    },
                }
                j += 1;
            }
            proof {
                assert(docs.take(docs.len() as int) =~= docs);
            }
            totals.push(acc);
            x += 1;
        }
        // score every document
        let mut scored: Vec<Hit> = Vec::new();
        let mut i2: usize = 0;
        while i2 < ndocs
            invariant
                i2 <= ndocs,
                ndocs == docs.len(),
                ndocs >= 1,
                docs == self.documents@,
                self.inv(),
                qs == views(stems@),
                qs == query_stems_spec(views(terms@)),
                w == total_len(docs),
                w <= LIMIT,
                totals@.len() == qs.len(),
                forall|y: int|
                    0 <= y < qs.len() ==> #[trigger] totals@[y] == sum_tf(docs, qs[y]) && totals@[y]
                        <= LIMIT,
                forall|ip: int|
                    0 <= ip < i2 && #[trigger] doc_num(docs, ip, qs) > 0 ==> doc_den(docs, ip, qs)
                        <= LIMIT,
                hviews(scored@) == pos_hits_upto(docs, qs, i2 as int),
            decreases ndocs - i2,
        {
            let len = self.documents[i2].1.length;
            let mut tfs: Vec<u64> = Vec::new();
            let mut others: Vec<u128> = Vec::new();
            let mut y: usize = 0;
            while y < stems.len()
                invariant
                    y <= stems@.len(),
                    docs == self.documents@,
                    ndocs == docs.len(),
                    i2 < ndocs,
                    self.inv(),
                    qs == views(stems@),
                qs == query_stems_spec(views(terms@)),
                    totals@.len() == qs.len(),
                    forall|z: int|
                        0 <= z < qs.len() ==> #[trigger] totals@[z] == sum_tf(docs, qs[z])
                            && totals@[z] <= LIMIT,
                    tfs@.len() == y,
                    others@.len() == y,
                    forall|z: int|
                        0 <= z < y ==> #[trigger] tfs@[z] == tf_of(docs[i2 as int].1, qs[z]),
                    forall|z: int|
                        0 <= z < y ==> #[trigger] others@[z] == (sum_tf(docs, qs[z]) - tf_of(
                            docs[i2 as int].1,
                            qs[z],
                        )) as u128 && others@[z] <= LIMIT,
                decreases stems@.len() - y,
            {
                let tf = match table_get(&self.documents[i2].1.terms, &stems[y]) {
                    Some(v) => v,
                    None => 0,
                };
                proof {
                    assert(tf == tf_of(docs[i2 as int].1, qs[y as int]));
                    lemma_sum_tf_at(docs, qs[y as int], i2 as int);
                    lemma_sum_tf_nonneg(docs, qs[y as int]);
                }
                tfs.push(tf);
                others.push(totals[y] - tf as u128);
                y += 1;
            }
            proof {
                assert(tfs@ =~= tf_seq(docs[i2 as int].1, qs));
                assert(others@ =~= other_seq(docs, i2 as int, qs));
                if len > 0 {
                    lemma_total_at(docs, i2 as int);
                    lemma_total_nonneg(docs);
                }
            }
            let parts = score_parts(&tfs, &others, len, ndocs, w);
            let ghost numv = doc_num(docs, i2 as int, qs);
            let ghost denv = doc_den(docs, i2 as int, qs);
            proof {
                lemma_total_nonneg(docs);
                assert(w == total_len(docs) as u128);
                assert(len == docs[i2 as int].1.length);
                assert(numv == score_num_of(tfs@, len, w));
                assert(denv == score_den_of(tfs@, others@, len, ndocs as int, w));
                lemma_den_ge_num(tfs@, others@, len, ndocs as int, w);
                lemma_num_nonneg(tfs@, len, w);
            }
            match parts {
                None => {
                    proof {
                        assert(numv > 0 && denv > LIMIT);
                        assert(!fits(docs, qs));
                    }
                    return Err(SearchError::ScoreOverflow);
                },
                Some((n, d)) => {
                    if n > 0 {
                        proof {
                            assert(n == numv && d == denv);
                            assert(denv >= numv) by {
                                lemma_den_ge_num(
                                    tf_seq(docs[i2 as int].1, qs),
                                    other_seq(docs, i2 as int, qs),
                                    len,
                                    ndocs as int,
                                    w,
                                );
                            }
                            assert(n <= d);
                            assert(d >= 1);
                            assert((LIMIT as int) * (SCALE as int) <= u128::MAX as int) by {
                                vstd::arithmetic::div_mod::lemma_fundamental_div_mod(
                                    u128::MAX as int,
                                    SCALE as int,
                                );
                                lemma_mul_is_commutative(
                                    SCALE as int,
                                    u128::MAX as int / SCALE as int,
                                );
                            }
                            lemma_mul_inequality(n as int, LIMIT as int, SCALE as int);
                        }
                        let scaled = n * (SCALE as u128);
                        let rank128 = scaled / d;
                        proof {
                            lemma_mul_inequality(n as int, d as int, SCALE as int);
                            vstd::arithmetic::div_mod::lemma_div_is_ordered(
                                n as int * SCALE as int,
                                d as int * SCALE as int,
                                d as int,
                            );
                            vstd::arithmetic::div_mod::lemma_div_multiples_vanish(
                                SCALE as int,
                                d as int,
                            );
                            lemma_mul_is_commutative(d as int, SCALE as int);
                            assert(rank128 <= SCALE);
                        }
                        let rank = rank128 as u64;
                        let ghost sv = hviews(scored@);
                        let hit = Hit { id: dup(&self.documents[i2].0), num: n, den: d, rank };
                        scored.push(hit);
                        proof {
                            assert(rank == rank_of(numv, denv) as u64);
                            assert(hviews(scored@) =~~= sv.push(doc_hit(docs, i2 as int, qs)));
                            assert(hviews(scored@) == pos_hits_upto(docs, qs, i2 + 1));
                        }
                    } else {
                        proof {
                            assert(numv == 0);
                            assert(hviews(scored@) == pos_hits_upto(docs, qs, i2 + 1));
                        }
                    }
                },
            }
            i2 += 1;
        }
        let ghost ph = pos_hits(docs, qs);
        proof {
            assert(hviews(scored@) == ph);
            assert forall|x3: int| 0 <= x3 < qs.len() implies sum_tf(docs, #[trigger] qs[x3])
                <= LIMIT by {
                assert(totals@[x3] == sum_tf(docs, qs[x3]));
            }
            assert(total_len(docs) <= LIMIT);
            assert(fits(docs, qs));
        }
        if scored.len() == 0 {
            return Err(SearchError::NoResults);
        }
        // sort, best first
        let mut ordered: Vec<Hit> = Vec::new();
        let mut s2: usize = 0;
        proof {
            broadcast use vstd::seq_lib::group_to_multiset_ensures;

            assert(ph.take(0) =~= Seq::<HitV>::empty());
            assert(hviews(ordered@) =~~= Seq::<HitV>::empty());
        }
        while s2 < scored.len()
            invariant
                s2 <= scored@.len(),
                ph == hviews(scored@),
                sorted_hits(hviews(ordered@)),
                hviews(ordered@).to_multiset() == ph.take(s2 as int).to_multiset(),
            decreases scored@.len() - s2,
        {
            let ghost ov = hviews(ordered@);
            let h = dup_hit(&scored[s2]);
            proof {
                assert(h@ == ph[s2 as int]);
            }
            insert_hit(&mut ordered, h);
            proof {
                broadcast use vstd::seq_lib::group_to_multiset_ensures;

                let p = choose|p: int|
                    0 <= p <= ov.len() && hviews(ordered@) == ov.insert(p, ph[s2 as int]);
                lemma_insert_to_multiset(ov, p, ph[s2 as int]);
                assert(ph.take(s2 + 1) =~= ph.take(s2 as int).push(ph[s2 as int]));
                assert(ph.take(s2 as int).push(ph[s2 as int]).to_multiset() =~= ph.take(
                    s2 as int,
                ).to_multiset().insert(ph[s2 as int]));
            }
            s2 += 1;
        }
        proof {
            assert(ph.take(ph.len() as int) =~= ph);
        }
        // keep the best `limit`
        let m = if limit <= ordered.len() {
            limit
        } else {
            ordered.len()
        };
        let mut out: Vec<Hit> = Vec::new();
        let mut t: usize = 0;
        while t < m
            invariant
                t <= m,
                m <= ordered@.len(),
                hviews(out@) =~~= hviews(ordered@).take(t as int),
            decreases m - t,
        {
            let ghost outv = hviews(out@);
            let h = dup_hit(&ordered[t]);
            out.push(h);
            proof {
                assert(hviews(out@) =~~= outv.push(hviews(ordered@)[t as int]));
                assert(hviews(ordered@).take(t + 1) =~~= hviews(ordered@).take(t as int).push(
                    hviews(ordered@)[t as int],
                ));
            }
            t += 1;
        }
        proof {
            broadcast use vstd::seq_lib::group_to_multiset_ensures;

            let odv = hviews(ordered@);
            let hv = hviews(out@);
            assert(odv.to_multiset() == ph.to_multiset());
            assert(odv.len() == odv.to_multiset().len());
            assert(ph.len() == ph.to_multiset().len());
            assert(odv.len() == ph.len());
            assert(hv =~~= odv.take(m as int));
            lemma_take_counts(odv, m as int);
            // every kept element really is a positive document's hit
            assert forall|x2: int| 0 <= x2 < hv.len() implies ph.contains(#[trigger] hv[x2]) by {
                assert(hv.to_multiset().count(hv[x2]) > 0) by {
                    assert(hv.contains(hv[x2]));
                }
                assert(odv.to_multiset().count(hv[x2]) > 0);
                assert(ph.to_multiset().count(hv[x2]) > 0);
            }
            // and every well-scored document is either kept or ranks no
            // better than everything kept
            assert forall|i3: int|
                0 <= i3 < docs.len() && #[trigger] doc_num(docs, i3, qs) > 0 implies ((exists|
                x2: int,
            |
                0 <= x2 < hv.len() && hv[x2] == doc_hit(docs, i3, qs)) || (forall|x2: int|
                0 <= x2 < hv.len() ==> hit_le(#[trigger] hv[x2], doc_hit(docs, i3, qs)))) by {
                lemma_pos_upto_member(docs, qs, i3, docs.len() as int);
                assert(ph.to_multiset().count(doc_hit(docs, i3, qs)) > 0);
                assert(odv.to_multiset().count(doc_hit(docs, i3, qs)) > 0);
                assert(odv.contains(doc_hit(docs, i3, qs)));
                let yy = choose|yy: int| 0 <= yy < odv.len() && odv[yy] == doc_hit(docs, i3, qs);
                if yy < m {
                    assert(hv[yy] == doc_hit(docs, i3, qs));
                } else {
                    assert forall|x2: int| 0 <= x2 < hv.len() implies hit_le(
                        #[trigger] hv[x2],
                        doc_hit(docs, i3, qs),
                    ) by {
                        assert(hv[x2] == odv[x2]);
                        assert(hit_le(odv[x2], odv[yy]));
                    }
                }
            }
        }
        Ok(out)
    }
}

} // verus!
