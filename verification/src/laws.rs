use vstd::prelude::*;

use crate::bytes::free_of;
use crate::corpus::{
    add_chunks, doc_id_spec, doc_of_chunk, heading_mark, sections_spec,
};
use crate::document::{body_spec, DocView, Document};
use crate::bytes::{prep, split_spec};
use crate::ranker::{
    doc_den, doc_num, lemma_den_ge_num, lemma_total_at, lemma_total_nonneg, other_seq, tf_of,
    tf_seq, total_len,
};

verus! {

// ---------------------------------------------------------------------------
// Identity
// ---------------------------------------------------------------------------

/// Indexing one unchanged note twice is the same as indexing it once:
/// the second pass computes the same id from the same trimmed body and
/// overwrites the entry with the same document.
pub proof fn lemma_index_idempotent(m: Map<Seq<u8>, DocView>, chunk: Seq<u8>, source: Seq<u8>)
    ensures
        add_chunks(add_chunks(m, seq![chunk], source), seq![chunk], source) == add_chunks(
            m,
            seq![chunk],
            source,
        ),
{
    assert(seq![chunk].drop_first() =~= Seq::<Seq<u8>>::empty());
    assert(seq![chunk][0] == chunk);
    let once = add_chunks(m, seq![chunk], source);
    let k = doc_id_spec(body_spec(chunk));
    let v = doc_of_chunk(chunk, source);
    let m1 = if body_spec(chunk).len() > 0 {
        m.insert(k, v)
    } else {
        m
    };
    assert(add_chunks(m1, Seq::<Seq<u8>>::empty(), source) == m1);
    assert(once == m1);
    let m2 = if body_spec(chunk).len() > 0 {
        m1.insert(k, v)
    } else {
        m1
    };
    assert(add_chunks(m2, Seq::<Seq<u8>>::empty(), source) == m2);
    assert(add_chunks(once, seq![chunk], source) == m2);
    if body_spec(chunk).len() > 0 {
        assert(m.insert(k, v).insert(k, v) =~= m.insert(k, v));
    }
}

// ---------------------------------------------------------------------------
// Segmentation
// ---------------------------------------------------------------------------

proof fn lemma_split_before_delim(x: Seq<u8>, r: Seq<u8>)
    requires
        free_of(x, 35),
    ensures
        split_spec(x + seq![35u8] + r, heading_mark()) == seq![x] + split_spec(r, heading_mark()),
    decreases x.len(),
{
    let s = x + seq![35u8] + r;
    let pat = heading_mark();
    if x.len() == 0 {
        assert(s.take(1) =~= pat);
        assert(s.skip(1) =~= r);
        assert(split_spec(s, pat) == seq![Seq::<u8>::empty()] + split_spec(r, pat));
        assert(seq![Seq::<u8>::empty()] + split_spec(r, pat) =~~= seq![x] + split_spec(r, pat));
    } else {
        assert(s.len() > 0 && s[0] == x[0]);
        assert(x[0] != 35);
        assert(!(pat.len() <= s.len() && s.take(1) == pat)) by {
            assert(s.take(1) =~= seq![x[0]]);
            assert(pat[0] == 35);
            assert(seq![x[0]][0] == x[0]);
        }
        assert(s.drop_first() =~= x.drop_first() + seq![35u8] + r);
        assert(free_of(x.drop_first(), 35)) by {
            assert(forall|i: int|
                0 <= i < x.drop_first().len() ==> #[trigger] x.drop_first()[i] == x[i + 1]);
        }
        lemma_split_before_delim(x.drop_first(), r);
        crate::bytes::lemma_split_nonempty(r, pat);
        assert(split_spec(s, pat) == prep(
            seq![x[0]],
            seq![x.drop_first()] + split_spec(r, pat),
        ));
        assert(prep(seq![x[0]], seq![x.drop_first()] + split_spec(r, pat)) =~~= seq![x]
            + split_spec(r, pat)) by {
            assert((seq![x.drop_first()] + split_spec(r, pat))[0] == x.drop_first());
            assert(seq![x[0]] + x.drop_first() =~= x);
            assert((seq![x.drop_first()] + split_spec(r, pat)).drop_first() =~~= split_spec(
                r,
                pat,
            ));
        }
    }
}

proof fn lemma_split_no_delim(x: Seq<u8>)
    requires
        free_of(x, 35),
    ensures
        split_spec(x, heading_mark()) == seq![x],
    decreases x.len(),
{
    let pat = heading_mark();
    if x.len() == 0 {
        assert(split_spec(x, pat) =~~= seq![x]);
    } else {
        assert(x[0] != 35);
        assert(!(pat.len() <= x.len() && x.take(1) == pat)) by {
            assert(x.take(1) =~= seq![x[0]]);
            assert(pat[0] == 35);
            assert(seq![x[0]][0] == x[0]);
        }
        assert(free_of(x.drop_first(), 35)) by {
            assert(forall|i: int|
                0 <= i < x.drop_first().len() ==> #[trigger] x.drop_first()[i] == x[i + 1]);
        }
        lemma_split_no_delim(x.drop_first());
        assert(split_spec(x, pat) == prep(seq![x[0]], seq![x.drop_first()]));
        assert(prep(seq![x[0]], seq![x.drop_first()]) =~~= seq![x]) by {
            assert(seq![x[0]] + x.drop_first() =~= x);
        }
    }
}

/// A file holding front-matter and two heading sections indexes to
/// exactly the two sections' documents: the front-matter is dropped,
/// and the corpus holds the two ids and nothing else.
pub proof fn lemma_segmentation(fm: Seq<u8>, s1: Seq<u8>, s2: Seq<u8>, source: Seq<u8>)
    requires
        free_of(fm, 35),
        free_of(s1, 35),
        free_of(s2, 35),
        body_spec(s1).len() > 0,
        body_spec(s2).len() > 0,
        doc_id_spec(body_spec(s1)) != doc_id_spec(body_spec(s2)),
    ensures
        ({
            let content = fm + seq![35u8] + s1 + seq![35u8] + s2;
            let m = add_chunks(
                Map::<Seq<u8>, DocView>::empty(),
                sections_spec(content),
                source,
            );
            m.dom() == set![doc_id_spec(body_spec(s1)), doc_id_spec(body_spec(s2))]
        }),
{
    let content = fm + seq![35u8] + s1 + seq![35u8] + s2;
    let pat = heading_mark();
    assert(content =~= fm + seq![35u8] + (s1 + seq![35u8] + s2));
    lemma_split_before_delim(fm, s1 + seq![35u8] + s2);
    lemma_split_before_delim(s1, s2);
    lemma_split_no_delim(s2);
    assert(split_spec(content, pat) == seq![fm] + (seq![s1] + seq![s2]));
    assert(sections_spec(content) =~~= seq![s1, s2]) by {
        assert((seq![fm] + (seq![s1] + seq![s2])).drop_first() =~~= seq![s1, s2]);
    }
    let m0 = Map::<Seq<u8>, DocView>::empty();
    let k1 = doc_id_spec(body_spec(s1));
    let k2 = doc_id_spec(body_spec(s2));
    assert(seq![s1, s2].drop_first() =~~= seq![s2]);
    assert(seq![s2].drop_first() =~~= Seq::<Seq<u8>>::empty());
    let m = add_chunks(m0, seq![s1, s2], source);
    let ma = m0.insert(k1, doc_of_chunk(s1, source));
    let mb = ma.insert(k2, doc_of_chunk(s2, source));
    assert(seq![s1, s2][0] == s1);
    assert(seq![s2][0] == s2);
    assert(add_chunks(mb, Seq::<Seq<u8>>::empty(), source) == mb);
    assert(add_chunks(ma, seq![s2], source) == mb);
    assert(m == mb);
    assert(m.dom() =~= set![k1, k2]);
}

// ---------------------------------------------------------------------------
// Score monotonicity
// ---------------------------------------------------------------------------

/// For a one-stem query, a document that carries the stem scores
/// strictly above one that lacks it: the latter's posterior numerator is
/// exactly zero, while the former's posterior is a ratio of positive
/// integers (numerator at least one, denominator no smaller), hence
/// strictly positive.
pub proof fn lemma_score_monotonic(
    docs: Seq<(Vec<u8>, Document)>,
    qs: Seq<Seq<u8>>,
    a: int,
    b: int,
)
    requires
        0 <= a < docs.len(),
        0 <= b < docs.len(),
        qs.len() == 1,
        total_len(docs) <= u128::MAX,
        tf_of(docs[a].1, qs[0]) >= 1,
        docs[a].1.length >= 1,
        tf_of(docs[b].1, qs[0]) == 0,
    ensures
        doc_num(docs, b, qs) == 0,
        doc_num(docs, a, qs) >= 1,
        doc_den(docs, a, qs) >= doc_num(docs, a, qs),
{
    let w = total_len(docs) as u128;
    lemma_total_at(docs, a);
    lemma_total_nonneg(docs);
    assert(w as int == total_len(docs));
    assert(w >= 1);
    // the absent stem pins the likelihood product at zero
    assert(tf_seq(docs[b].1, qs) =~= seq![0u64]);
    assert(seq![0u64].drop_last() =~= Seq::<u64>::empty());
    assert(crate::ranker::prod_tfs(Seq::<u64>::empty()) == 1);
    assert(crate::ranker::prod_tfs(seq![0u64]) == 1 * 0u64);
    assert(doc_num(docs, b, qs) == 0) by {
        if docs[b].1.length != 0 {
            assert(crate::ranker::score_num_of(seq![0u64], docs[b].1.length, w) == 0
                * vstd::arithmetic::power::pow(w as int, 1));
        }
    }
    // the present stem keeps it at least one
    let tfa = tf_of(docs[a].1, qs[0]);
    assert(tf_seq(docs[a].1, qs) =~= seq![tfa]);
    assert(seq![tfa].drop_last() =~= Seq::<u64>::empty());
    assert(crate::ranker::prod_tfs(seq![tfa]) == 1 * tfa);
    assert(vstd::arithmetic::power::pow(w as int, 1) == w as int) by {
        vstd::arithmetic::power::lemma_pow1(w as int);
    }
    assert(doc_num(docs, a, qs) == tfa * (w as int));
    vstd::arithmetic::mul::lemma_mul_inequality(1, tfa as int, w as int);
    vstd::arithmetic::mul::lemma_mul_is_commutative(tfa as int, w as int);
    assert(doc_num(docs, a, qs) >= 1) by {
        vstd::arithmetic::mul::lemma_mul_strictly_positive(tfa as int, w as int);
    }
    lemma_den_ge_num(
        tf_seq(docs[a].1, qs),
        other_seq(docs, a, qs),
        docs[a].1.length,
        docs.len() as int,
        w,
    );
}

} // verus!
