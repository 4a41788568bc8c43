use vstd::prelude::*;

use crate::bytes::dup;

verus! {

// A term table: byte-string keys with `u64` values, kept as a vector of
// pairs with pairwise-distinct keys, read as a finite map.

/// The keys of a pair list, in order.
pub open spec fn akeys(s: Seq<(Vec<u8>, u64)>) -> Seq<Seq<u8>> {
    s.map_values(|p: (Vec<u8>, u64)| p.0@)
}

/// Pairwise-distinct keys.
pub open spec fn unique_keys(s: Seq<(Vec<u8>, u64)>) -> bool {
    forall|i: int, j: int| 0 <= i < j < s.len() ==> #[trigger] s[i].0@ != #[trigger] s[j].0@
}

/// The map a pair list denotes; on a duplicate key the later pair wins.
pub open spec fn amap(s: Seq<(Vec<u8>, u64)>) -> Map<Seq<u8>, u64>
    decreases s.len(),
{
    if s.len() == 0 {
        Map::<Seq<u8>, u64>::empty()
    } else {
        amap(s.drop_last()).insert(s.last().0@, s.last().1)
    }
}

pub proof fn lemma_amap_dom(s: Seq<(Vec<u8>, u64)>, k: Seq<u8>)
    ensures
        amap(s).contains_key(k) <==> exists|i: int| 0 <= i < s.len() && #[trigger] s[i].0@ == k,
    decreases s.len(),
{
    if s.len() > 0 {
        lemma_amap_dom(s.drop_last(), k);
        if s.last().0@ == k {
            assert(s[s.len() - 1].0@ == k);
        } else if amap(s).contains_key(k) {
            let i = choose|i: int| 0 <= i < s.len() - 1 && #[trigger] s.drop_last()[i].0@ == k;
            assert(s[i].0@ == k);
        } else {
            assert forall|i: int| 0 <= i < s.len() implies #[trigger] s[i].0@ != k by {
                if i < s.len() - 1 {
                    assert(s.drop_last()[i].0@ != k);
                }
            }
        }
    }
}

pub proof fn lemma_amap_at(s: Seq<(Vec<u8>, u64)>, i: int)
    requires
        unique_keys(s),
        0 <= i < s.len(),
    ensures
        amap(s).contains_key(s[i].0@),
        amap(s)[s[i].0@] == s[i].1,
    decreases s.len(),
{
    if i == s.len() - 1 {
    } else {
        assert(unique_keys(s.drop_last())) by {
            assert(forall|x: int, y: int|
                0 <= x < y < s.len() - 1 ==> #[trigger] s.drop_last()[x].0@ != #[trigger] s.drop_last()[y].0@);
        }
        lemma_amap_at(s.drop_last(), i);
        assert(s.drop_last()[i] == s[i]);
        assert(s[i].0@ != s.last().0@);
    }
}

pub proof fn lemma_amap_push(s: Seq<(Vec<u8>, u64)>, p: (Vec<u8>, u64))
    ensures
        amap(s.push(p)) == amap(s).insert(p.0@, p.1),
{
    assert(s.push(p).drop_last() =~= s);
    assert(s.push(p).last() == p);
}

pub proof fn lemma_amap_update(s: Seq<(Vec<u8>, u64)>, i: int, p: (Vec<u8>, u64))
    requires
        unique_keys(s),
        0 <= i < s.len(),
        p.0@ == s[i].0@,
    ensures
        amap(s.update(i, p)) == amap(s).insert(p.0@, p.1),
    decreases s.len(),
{
    let t = s.update(i, p);
    if i == s.len() - 1 {
        assert(t.drop_last() =~= s.drop_last());
        assert(t.last() == p);
    } else {
        assert(unique_keys(s.drop_last())) by {
            assert(forall|x: int, y: int|
                0 <= x < y < s.len() - 1 ==> #[trigger] s.drop_last()[x].0@ != #[trigger] s.drop_last()[y].0@);
        }
        lemma_amap_update(s.drop_last(), i, p);
        assert(t.drop_last() =~= s.drop_last().update(i, p));
        assert(t.last() == s.last());
        assert(s[i].0@ != s.last().0@);
        assert(amap(t) =~= amap(s).insert(p.0@, p.1));
    }
}

pub fn table_get(t: &Vec<(Vec<u8>, u64)>, key: &Vec<u8>) -> (r: Option<u64>)
    requires
        unique_keys(t@),
    ensures
        match r {
            Some(v) => amap(t@).contains_key(key@) && amap(t@)[key@] == v,
            None => !amap(t@).contains_key(key@),
        },
{
    let mut i: usize = 0;
    while i < t.len()
        invariant
            i <= t@.len(),
            unique_keys(t@),
            forall|j: int| 0 <= j < i ==> #[trigger] t@[j].0@ != key@,
        decreases t@.len() - i,
    {
        if crate::bytes::bytes_eq(&t[i].0, key) {
            let v = t[i].1;
            proof {
                lemma_amap_at(t@, i as int);
            }
            return Some(v);
        }
        i += 1;
    }
    proof {
        lemma_amap_dom(t@, key@);
    }
    None
}

/// Insert or overwrite one key.
pub fn table_set(t: &mut Vec<(Vec<u8>, u64)>, key: &Vec<u8>, v: u64)
    requires
        unique_keys(old(t)@),
    ensures
        unique_keys(final(t)@),
        amap(final(t)@) == amap(old(t)@).insert(key@, v),
        akeys(final(t)@) == if amap(old(t)@).contains_key(key@) {
            akeys(old(t)@)
        } else {
            akeys(old(t)@).push(key@)
        },
{
    let mut i: usize = 0;
    while i < t.len()
        invariant
            i <= t@.len(),
            t@ == old(t)@,
            unique_keys(t@),
            forall|j: int| 0 <= j < i ==> #[trigger] t@[j].0@ != key@,
        decreases t@.len() - i,
    {
        if crate::bytes::bytes_eq(&t[i].0, key) {
            let pair = (dup(key), v);
            let ghost prev = t@;
            vstd::pervasive::VecAdditionalExecFns::set(t, i, pair);
            proof {
                assert(t@ == prev.update(i as int, (pair.0, v)));
                lemma_amap_update(prev, i as int, (pair.0, v));
                lemma_amap_dom(prev, key@);
                assert(akeys(t@) =~= akeys(prev));
                assert(unique_keys(t@)) by {
                    assert(forall|x: int|
                        0 <= x < t@.len() ==> #[trigger] akeys(t@)[x] == akeys(prev)[x]);
                    assert(forall|x: int| 0 <= x < t@.len() ==> #[trigger] t@[x].0@ == akeys(t@)[x]);
                    assert(forall|x: int|
                        0 <= x < prev.len() ==> #[trigger] prev[x].0@ == akeys(prev)[x]);
                }
            }
            return ;
        }
        i += 1;
    }
    let ghost prev = t@;
    let pair = (dup(key), v);
    t.push(pair);
    proof {
        lemma_amap_push(prev, (pair.0, v));
        lemma_amap_dom(prev, key@);
        assert(akeys(t@) =~= akeys(prev).push(key@));
        assert(unique_keys(t@)) by {
            assert(forall|x: int| 0 <= x < prev.len() ==> #[trigger] t@[x] == prev[x]);
            assert(forall|x: int| 0 <= x < prev.len() ==> #[trigger] prev[x].0@ != key@);
        }
    }
}

// ---------------------------------------------------------------------------
// Occurrence counting
// ---------------------------------------------------------------------------

/// How often `k` occurs in a list of byte strings.
pub open spec fn count_in(ss: Seq<Seq<u8>>, k: Seq<u8>) -> nat
    decreases ss.len(),
{
    if ss.len() == 0 {
        0
    } else {
        count_in(ss.drop_last(), k) + if ss.last() == k {
            1nat
        } else {
            0nat
        }
    }
}

/// The bag of a term list as a map from term to occurrence count.
pub open spec fn counts_map(ss: Seq<Seq<u8>>) -> Map<Seq<u8>, u64> {
    Map::new(|k: Seq<u8>| ss.contains(k), |k: Seq<u8>| count_in(ss, k) as u64)
}

pub proof fn lemma_count_le_len(ss: Seq<Seq<u8>>, k: Seq<u8>)
    ensures
        count_in(ss, k) <= ss.len(),
    decreases ss.len(),
{
    if ss.len() > 0 {
        lemma_count_le_len(ss.drop_last(), k);
    }
}

pub proof fn lemma_count_push(ss: Seq<Seq<u8>>, e: Seq<u8>, k: Seq<u8>)
    ensures
        count_in(ss.push(e), k) == count_in(ss, k) + if e == k {
            1nat
        } else {
            0nat
        },
{
    assert(ss.push(e).drop_last() =~~= ss);
}

pub proof fn lemma_counts_push(ss: Seq<Seq<u8>>, e: Seq<u8>)
    requires
        ss.len() < u64::MAX,
    ensures
        counts_map(ss.push(e)) == counts_map(ss).insert(
            e,
            if ss.contains(e) {
                (count_in(ss, e) + 1) as u64
            } else {
                1u64
            },
        ),
{
    let lhs = counts_map(ss.push(e));
    let rhs = counts_map(ss).insert(
        e,
        if ss.contains(e) {
            (count_in(ss, e) + 1) as u64
        } else {
            1u64
        },
    );
    assert forall|k: Seq<u8>| true implies (lhs.contains_key(k) <==> rhs.contains_key(k)) by {
        if k == e {
            assert(ss.push(e)[ss.len() as int] == e);
            assert(ss.push(e).contains(e));
        } else {
            if ss.contains(k) {
                let i = choose|i: int| 0 <= i < ss.len() && ss[i] == k;
                assert(ss.push(e)[i] == k);
            } else if ss.push(e).contains(k) {
                let i = choose|i: int| 0 <= i < ss.push(e).len() && ss.push(e)[i] == k;
                assert(ss[i] == k);
            }
        }
    }
    assert forall|k: Seq<u8>| lhs.contains_key(k) implies lhs[k] == rhs[k] by {
        lemma_count_push(ss, e, k);
        lemma_count_le_len(ss, k);
        if k == e && !ss.contains(e) {
            lemma_count_zero(ss, e);
        }
    }
    assert(lhs =~= rhs);
}

pub proof fn lemma_count_zero(ss: Seq<Seq<u8>>, k: Seq<u8>)
    requires
        !ss.contains(k),
    ensures
        count_in(ss, k) == 0,
    decreases ss.len(),
{
    if ss.len() > 0 {
        assert(!ss.drop_last().contains(k)) by {
            if ss.drop_last().contains(k) {
                let i = choose|i: int| 0 <= i < ss.len() - 1 && ss.drop_last()[i] == k;
                assert(ss[i] == k);
            }
        }
        lemma_count_zero(ss.drop_last(), k);
        assert(ss.last() != k) by {
            assert(ss[ss.len() - 1] == ss.last());
        }
    }
}

/// Add one to a key's count, starting absent keys at one.
pub fn table_bump(t: &mut Vec<(Vec<u8>, u64)>, key: &Vec<u8>)
    requires
        unique_keys(old(t)@),
        amap(old(t)@).contains_key(key@) ==> amap(old(t)@)[key@] < u64::MAX,
    ensures
        unique_keys(final(t)@),
        amap(final(t)@) == amap(old(t)@).insert(
            key@,
            if amap(old(t)@).contains_key(key@) {
                (amap(old(t)@)[key@] + 1) as u64
            } else {
                1u64
            },
        ),
        akeys(final(t)@) == if amap(old(t)@).contains_key(key@) {
            akeys(old(t)@)
        } else {
            akeys(old(t)@).push(key@)
        },
{
    let cur = table_get(t, key);
    match cur {
        Some(v) => table_set(t, key, v + 1),
        None => table_set(t, key, 1),
    }
}

} // verus!
