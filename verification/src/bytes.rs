use vstd::prelude::*;

verus! {

// ---------------------------------------------------------------------------
// Byte classification
// ---------------------------------------------------------------------------

/// ASCII whitespace, the delimiter class used for tokenizing note text.
pub open spec fn is_ws(b: u8) -> bool {
    b == 32 || b == 9 || b == 10 || b == 13
}

pub fn ws_byte(b: u8) -> (r: bool)
    ensures
        r == is_ws(b),
{
    b == 32 || b == 9 || b == 10 || b == 13
}

/// ASCII lowercasing of one byte: `A`..`Z` map to `a`..`z`, all else unchanged.
pub open spec fn lower_byte(b: u8) -> u8 {
    if 65 <= b && b <= 90 {
        (b + 32) as u8
    } else {
        b
    }
}

pub open spec fn lower_spec(s: Seq<u8>) -> Seq<u8> {
    s.map_values(|b: u8| lower_byte(b))
}

pub fn lower(s: &Vec<u8>) -> (out: Vec<u8>)
    ensures
        out@ == lower_spec(s@),
{
    let mut out: Vec<u8> = Vec::new();
    let mut i: usize = 0;
    while i < s.len()
        invariant
            i <= s@.len(),
            out@ =~= lower_spec(s@).take(i as int),
        decreases s@.len() - i,
    {
        let b = s[i];
        if 65 <= b && b <= 90 {
            out.push(b + 32);
        } else {
            out.push(b);
        }
        i += 1;
    }
    assert(lower_spec(s@).take(s@.len() as int) =~= lower_spec(s@));
    out
}

// ---------------------------------------------------------------------------
// Small helpers
// ---------------------------------------------------------------------------

pub fn push_all(out: &mut Vec<u8>, src: &Vec<u8>)
    ensures
        final(out)@ == old(out)@ + src@,
{
    let mut i: usize = 0;
    while i < src.len()
        invariant
            i <= src@.len(),
            out@ =~= old(out)@ + src@.take(i as int),
        decreases src@.len() - i,
    {
        out.push(src[i]);
        i += 1;
    }
    assert(out@ =~= old(out)@ + src@);
}

pub fn dup(src: &Vec<u8>) -> (out: Vec<u8>)
    ensures
        out@ == src@,
{
    let mut out: Vec<u8> = Vec::new();
    push_all(&mut out, src);
    out
}

pub fn bytes_eq(a: &Vec<u8>, b: &Vec<u8>) -> (r: bool)
    ensures
        r == (a@ == b@),
{
    if a.len() != b.len() {
        assert(a@ != b@);
        return false;
    }
    let mut i: usize = 0;
    while i < a.len()
        invariant
            i <= a@.len(),
            a@.len() == b@.len(),
            forall|j: int| 0 <= j < i ==> a@[j] == b@[j],
        decreases a@.len() - i,
    {
        if a[i] != b[i] {
            return false;
        }
        i += 1;
    }
    assert(a@ =~= b@);
    true
}

/// True when `pat` occurs in `s` starting at position `at`.
pub open spec fn match_at_spec(s: Seq<u8>, at: int, pat: Seq<u8>) -> bool {
    0 <= at && at + pat.len() <= s.len() && s.subrange(at, at + pat.len() as int) == pat
}

pub fn match_at(s: &Vec<u8>, at: usize, pat: &Vec<u8>) -> (r: bool)
    requires
        at <= s@.len(),
    ensures
        r == match_at_spec(s@, at as int, pat@),
{
    if pat.len() > s.len() - at {
        return false;
    }
    let mut i: usize = 0;
    let slen = s.len();
    while i < pat.len()
        invariant
            i <= pat@.len(),
            at + pat@.len() <= s@.len(),
            slen == s@.len(),
            forall|j: int| 0 <= j < i ==> s@[at + j] == pat@[j],
        decreases pat@.len() - i,
    {
        if s[at + i] != pat[i] {
            assert(s@.subrange(at as int, at + pat@.len() as int)[i as int] != pat@[i as int]);
            return false;
        }
        i += 1;
    }
    assert(s@.subrange(at as int, at + pat@.len() as int) =~= pat@);
    true
}

pub fn find_byte(s: &Vec<u8>, from: usize, b: u8) -> (r: Option<usize>)
    requires
        from <= s@.len(),
    ensures
        match r {
            Some(j) => from <= j < s@.len() && s@[j as int] == b && forall|k: int|
                from <= k < j ==> s@[k] != b,
            None => forall|k: int| from <= k < s@.len() ==> s@[k] != b,
        },
{
    let mut i: usize = from;
    while i < s.len()
        invariant
            from <= i <= s@.len(),
            forall|k: int| from <= k < i ==> s@[k] != b,
        decreases s@.len() - i,
    {
        if s[i] == b {
            return Some(i);
        }
        i += 1;
    }
    None
}

// ---------------------------------------------------------------------------
// Substring replacement
// ---------------------------------------------------------------------------

/// Replace every occurrence of `pat` by `rep`, scanning left to right and
/// never rescanning replaced output.
pub open spec fn replace_spec(s: Seq<u8>, pat: Seq<u8>, rep: Seq<u8>) -> Seq<u8>
    decreases s.len(),
        when pat.len() > 0
{
    if s.len() == 0 {
        Seq::<u8>::empty()
    } else if pat.len() <= s.len() && s.take(pat.len() as int) == pat {
        rep + replace_spec(s.skip(pat.len() as int), pat, rep)
    } else {
        seq![s[0]] + replace_spec(s.drop_first(), pat, rep)
    }
}

pub fn replace(s: &Vec<u8>, pat: &Vec<u8>, rep: &Vec<u8>) -> (out: Vec<u8>)
    requires
        pat@.len() > 0,
    ensures
        out@ == replace_spec(s@, pat@, rep@),
{
    let mut out: Vec<u8> = Vec::new();
    let mut i: usize = 0;
    assert(s@.skip(0) =~= s@);
    assert(Seq::<u8>::empty() + replace_spec(s@, pat@, rep@) =~= replace_spec(s@, pat@, rep@));
    while i < s.len()
        invariant
            i <= s@.len(),
            pat@.len() > 0,
            replace_spec(s@, pat@, rep@) == out@ + replace_spec(s@.skip(i as int), pat@, rep@),
        decreases s@.len() - i,
    {
        let ghost rest = s@.skip(i as int);
        if match_at(s, i, pat) {
            assert(rest.take(pat@.len() as int) =~= s@.subrange(i as int, i + pat@.len() as int));
            let ghost prev = out@;
            push_all(&mut out, rep);
            assert(rest.skip(pat@.len() as int) =~= s@.skip(i + pat@.len() as int));
            assert(replace_spec(rest, pat@, rep@) == rep@ + replace_spec(
                s@.skip(i + pat@.len()),
                pat@,
                rep@,
            ));
            assert(prev + replace_spec(rest, pat@, rep@) =~= out@ + replace_spec(
                s@.skip(i + pat@.len()),
                pat@,
                rep@,
            ));
            i += pat.len();
        } else {
            assert(rest.len() > 0 && !(pat@.len() <= rest.len() && rest.take(pat@.len() as int)
                == pat@)) by {
                if pat@.len() <= rest.len() {
                    assert(rest.take(pat@.len() as int) =~= s@.subrange(
                        i as int,
                        i + pat@.len() as int,
                    ));
                }
            }
            let ghost prev = out@;
            out.push(s[i]);
            assert(rest.drop_first() =~= s@.skip(i + 1));
            assert(replace_spec(rest, pat@, rep@) == seq![s@[i as int]] + replace_spec(
                s@.skip(i + 1),
                pat@,
                rep@,
            ));
            assert(prev + replace_spec(rest, pat@, rep@) =~= out@ + replace_spec(
                s@.skip(i + 1),
                pat@,
                rep@,
            ));
            i += 1;
        }
    }
    assert(s@.skip(s@.len() as int) =~= Seq::<u8>::empty());
    assert(out@ + Seq::<u8>::empty() =~= out@);
    out
}

// ---------------------------------------------------------------------------
// Trimming
// ---------------------------------------------------------------------------

pub open spec fn trim_start_spec(s: Seq<u8>) -> Seq<u8>
    decreases s.len(),
{
    if s.len() > 0 && is_ws(s[0]) {
        trim_start_spec(s.drop_first())
    } else {
        s
    }
}

pub open spec fn trim_end_spec(s: Seq<u8>) -> Seq<u8>
    decreases s.len(),
{
    if s.len() > 0 && is_ws(s.last()) {
        trim_end_spec(s.drop_last())
    } else {
        s
    }
}

/// Trim ASCII whitespace from both ends.
pub open spec fn trim_spec(s: Seq<u8>) -> Seq<u8> {
    trim_end_spec(trim_start_spec(s))
}

pub fn trim_end(s: &Vec<u8>) -> (out: Vec<u8>)
    ensures
        out@ == trim_end_spec(s@),
{
    let mut out = dup(s);
    loop
        invariant
            trim_end_spec(s@) == trim_end_spec(out@),
        decreases out@.len(),
    {
        let n = out.len();
        if n == 0 {
            return out;
        }
        let b = out[n - 1];
        if ws_byte(b) {
            assert(out@.last() == b);
            let ghost prev = out@;
            let _ = out.pop();
            assert(out@ =~= prev.drop_last());
        } else {
            return out;
        }
    }
}

pub fn trim_start(s: &Vec<u8>) -> (out: Vec<u8>)
    ensures
        out@ == trim_start_spec(s@),
{
    let mut out = dup(s);
    loop
        invariant
            trim_start_spec(s@) == trim_start_spec(out@),
        decreases out@.len(),
    {
        if out.len() == 0 {
            return out;
        }
        if ws_byte(out[0]) {
            let ghost prev = out@;
            let _ = out.remove(0);
            assert(out@ =~= prev.drop_first());
        } else {
            return out;
        }
    }
}

pub fn trim(s: &Vec<u8>) -> (out: Vec<u8>)
    ensures
        out@ == trim_spec(s@),
{
    let a = trim_start(s);
    trim_end(&a)
}

// ---------------------------------------------------------------------------
// Literal byte vectors
// ---------------------------------------------------------------------------

pub fn vec1(a: u8) -> (v: Vec<u8>)
    ensures
        v@ == seq![a],
{
    let mut v: Vec<u8> = Vec::new();
    v.push(a);
    assert(v@ =~= seq![a]);
    v
}

pub fn vec2(a: u8, b: u8) -> (v: Vec<u8>)
    ensures
        v@ == seq![a, b],
{
    let mut v = vec1(a);
    v.push(b);
    assert(v@ =~= seq![a, b]);
    v
}

pub fn vec3(a: u8, b: u8, c: u8) -> (v: Vec<u8>)
    ensures
        v@ == seq![a, b, c],
{
    let mut v = vec2(a, b);
    v.push(c);
    assert(v@ =~= seq![a, b, c]);
    v
}

pub fn vec4(a: u8, b: u8, c: u8, d: u8) -> (v: Vec<u8>)
    ensures
        v@ == seq![a, b, c, d],
{
    let mut v = vec3(a, b, c);
    v.push(d);
    assert(v@ =~= seq![a, b, c, d]);
    v
}

// ---------------------------------------------------------------------------
// Absence of a byte
// ---------------------------------------------------------------------------

/// No occurrence of byte `b` anywhere in `s`.
pub open spec fn free_of(s: Seq<u8>, b: u8) -> bool {
    forall|i: int| 0 <= i < s.len() ==> #[trigger] s[i] != b
}

/// Replacing the single-byte pattern `b` by a replacement free of `b`
/// leaves no occurrence of `b` behind.
pub proof fn lemma_replace_rm(s: Seq<u8>, b: u8, rep: Seq<u8>)
    requires
        free_of(rep, b),
    ensures
        free_of(replace_spec(s, seq![b], rep), b),
    decreases s.len(),
{
    let pat = seq![b];
    if s.len() == 0 {
    } else if pat.len() <= s.len() && s.take(pat.len() as int) == pat {
        lemma_replace_rm(s.skip(1), b, rep);
    } else {
        assert(s[0] != b) by {
            if s[0] == b {
                assert(s.take(1) =~= pat);
            }
        }
        lemma_replace_rm(s.drop_first(), b, rep);
        assert(free_of(seq![s[0]] + replace_spec(s.drop_first(), pat, rep), b));
    }
}

/// Replacement never introduces a byte that neither input holds.
pub proof fn lemma_replace_keeps_free(s: Seq<u8>, pat: Seq<u8>, rep: Seq<u8>, b: u8)
    requires
        pat.len() > 0,
        free_of(s, b),
        free_of(rep, b),
    ensures
        free_of(replace_spec(s, pat, rep), b),
    decreases s.len(),
{
    if s.len() == 0 {
    } else if pat.len() <= s.len() && s.take(pat.len() as int) == pat {
        assert(free_of(s.skip(pat.len() as int), b)) by {
            assert(forall|i: int|
                0 <= i < s.skip(pat.len() as int).len() ==> #[trigger] s.skip(pat.len() as int)[i]
                    == s[i + pat.len()]);
        }
        lemma_replace_keeps_free(s.skip(pat.len() as int), pat, rep, b);
    } else {
        assert(free_of(s.drop_first(), b)) by {
            assert(forall|i: int|
                0 <= i < s.drop_first().len() ==> #[trigger] s.drop_first()[i] == s[i + 1]);
        }
        lemma_replace_keeps_free(s.drop_first(), pat, rep, b);
        assert(free_of(seq![s[0]] + replace_spec(s.drop_first(), pat, rep), b));
    }
}

/// Trimming keeps a byte absent.
pub proof fn lemma_trim_keeps_free(s: Seq<u8>, b: u8)
    requires
        free_of(s, b),
    ensures
        free_of(trim_spec(s), b),
        free_of(trim_start_spec(s), b),
        free_of(trim_end_spec(s), b),
{
    lemma_trim_start_free(s, b);
    lemma_trim_end_free(trim_start_spec(s), b);
    lemma_trim_end_free(s, b);
}

proof fn lemma_trim_start_free(s: Seq<u8>, b: u8)
    requires
        free_of(s, b),
    ensures
        free_of(trim_start_spec(s), b),
    decreases s.len(),
{
    if s.len() > 0 && is_ws(s[0]) {
        assert(free_of(s.drop_first(), b)) by {
            assert(forall|i: int|
                0 <= i < s.drop_first().len() ==> #[trigger] s.drop_first()[i] == s[i + 1]);
        }
        lemma_trim_start_free(s.drop_first(), b);
    }
}

proof fn lemma_trim_end_free(s: Seq<u8>, b: u8)
    requires
        free_of(s, b),
    ensures
        free_of(trim_end_spec(s), b),
    decreases s.len(),
{
    if s.len() > 0 && is_ws(s.last()) {
        lemma_trim_end_free(s.drop_last(), b);
    }
}

// ---------------------------------------------------------------------------
// Splitting
// ---------------------------------------------------------------------------

/// The views of a sequence of byte vectors.
pub open spec fn views(l: Seq<Vec<u8>>) -> Seq<Seq<u8>> {
    l.map_values(|v: Vec<u8>| v@)
}

/// Prepend `c` to the first piece of a non-empty piece list.
pub open spec fn prep(c: Seq<u8>, parts: Seq<Seq<u8>>) -> Seq<Seq<u8>> {
    seq![c + parts[0]] + parts.drop_first()
}

/// Split on every occurrence of `pat`, left to right; `n` delimiters yield
/// `n + 1` pieces, so the result is never empty.
pub open spec fn split_spec(s: Seq<u8>, pat: Seq<u8>) -> Seq<Seq<u8>>
    decreases s.len(),
        when pat.len() > 0
{
    if s.len() == 0 {
        seq![Seq::<u8>::empty()]
    } else if pat.len() <= s.len() && s.take(pat.len() as int) == pat {
        seq![Seq::<u8>::empty()] + split_spec(s.skip(pat.len() as int), pat)
    } else {
        prep(seq![s[0]], split_spec(s.drop_first(), pat))
    }
}

pub proof fn lemma_split_nonempty(s: Seq<u8>, pat: Seq<u8>)
    requires
        pat.len() > 0,
    ensures
        split_spec(s, pat).len() >= 1,
    decreases s.len(),
{
    if s.len() == 0 {
    } else if pat.len() <= s.len() && s.take(pat.len() as int) == pat {
        lemma_split_nonempty(s.skip(pat.len() as int), pat);
    } else {
        lemma_split_nonempty(s.drop_first(), pat);
    }
}

pub fn split(s: &Vec<u8>, pat: &Vec<u8>) -> (out: Vec<Vec<u8>>)
    requires
        pat@.len() > 0,
    ensures
        views(out@) == split_spec(s@, pat@),
{
    let mut done: Vec<Vec<u8>> = Vec::new();
    let mut cur: Vec<u8> = Vec::new();
    let mut i: usize = 0;
    proof {
        lemma_split_nonempty(s@, pat@);
        assert(s@.skip(0) =~= s@);
        assert(views(done@) + prep(cur@, split_spec(s@, pat@)) =~~= split_spec(s@, pat@));
    }
    while i < s.len()
        invariant
            i <= s@.len(),
            pat@.len() > 0,
            split_spec(s@, pat@) == views(done@) + prep(cur@, split_spec(s@.skip(i as int), pat@)),
        decreases s@.len() - i,
    {
        let ghost rest = s@.skip(i as int);
        let ghost donev = done@;
        let ghost curv = cur@;
        if match_at(s, i, pat) {
            proof {
                assert(rest.take(pat@.len() as int) =~= s@.subrange(i as int, i + pat@.len() as int));
                assert(rest.skip(pat@.len() as int) =~= s@.skip(i + pat@.len()));
                lemma_split_nonempty(s@.skip(i + pat@.len()), pat@);
            }
            done.push(cur);
            cur = Vec::new();
            i += pat.len();
            proof {
                let tail = split_spec(s@.skip(i as int), pat@);
                assert(split_spec(rest, pat@) == seq![Seq::<u8>::empty()] + tail);
                assert(prep(curv, seq![Seq::<u8>::empty()] + tail) =~~= seq![curv] + tail);
                assert(views(done@) =~~= views(donev).push(curv));
                assert(views(donev) + prep(curv, split_spec(rest, pat@)) =~~= views(done@) + prep(
                    cur@,
                    tail,
                ));
            }
        } else {
            proof {
                assert(rest.len() > 0);
                if pat@.len() <= rest.len() {
                    assert(rest.take(pat@.len() as int) =~= s@.subrange(
                        i as int,
                        i + pat@.len() as int,
                    ));
                }
                assert(rest.drop_first() =~= s@.skip(i + 1));
                lemma_split_nonempty(s@.skip(i + 1), pat@);
            }
            cur.push(s[i]);
            i += 1;
            proof {
                let tail = split_spec(s@.skip(i as int), pat@);
                assert(split_spec(rest, pat@) == prep(seq![rest[0]], tail));
                assert(prep(curv, prep(seq![rest[0]], tail)) =~~= prep(cur@, tail));
                assert(views(donev) + prep(curv, split_spec(rest, pat@)) =~~= views(done@) + prep(
                    cur@,
                    tail,
                ));
            }
        }
    }
    proof {
        assert(s@.skip(s@.len() as int) =~= Seq::<u8>::empty());
    }
    done.push(cur);
    proof {
        assert(views(done@) =~~= split_spec(s@, pat@));
    }
    done
}

// ---------------------------------------------------------------------------
// Whitespace tokenizing
// ---------------------------------------------------------------------------

/// Split on every single ASCII whitespace byte (empty pieces kept).
pub open spec fn split_ws_spec(s: Seq<u8>) -> Seq<Seq<u8>>
    decreases s.len(),
{
    if s.len() == 0 {
        seq![Seq::<u8>::empty()]
    } else if is_ws(s[0]) {
        seq![Seq::<u8>::empty()] + split_ws_spec(s.drop_first())
    } else {
        prep(seq![s[0]], split_ws_spec(s.drop_first()))
    }
}

pub proof fn lemma_split_ws_nonempty(s: Seq<u8>)
    ensures
        split_ws_spec(s).len() >= 1,
    decreases s.len(),
{
    if s.len() == 0 {
    } else {
        lemma_split_ws_nonempty(s.drop_first());
    }
}

/// The whitespace-delimited tokens of a text: the non-empty pieces.
pub open spec fn tokens_spec(s: Seq<u8>) -> Seq<Seq<u8>> {
    split_ws_spec(s).filter(|t: Seq<u8>| t.len() > 0)
}

fn split_ws(s: &Vec<u8>) -> (out: Vec<Vec<u8>>)
    ensures
        views(out@) == split_ws_spec(s@),
{
    let mut done: Vec<Vec<u8>> = Vec::new();
    let mut cur: Vec<u8> = Vec::new();
    let mut i: usize = 0;
    proof {
        lemma_split_ws_nonempty(s@);
        assert(s@.skip(0) =~= s@);
        assert(views(done@) + prep(cur@, split_ws_spec(s@)) =~~= split_ws_spec(s@));
    }
    while i < s.len()
        invariant
            i <= s@.len(),
            split_ws_spec(s@) == views(done@) + prep(cur@, split_ws_spec(s@.skip(i as int))),
        decreases s@.len() - i,
    {
        let ghost rest = s@.skip(i as int);
        let ghost donev = done@;
        let ghost curv = cur@;
        proof {
            assert(rest.drop_first() =~= s@.skip(i + 1));
            lemma_split_ws_nonempty(s@.skip(i + 1));
        }
        if ws_byte(s[i]) {
            done.push(cur);
            cur = Vec::new();
            i += 1;
            proof {
                let tail = split_ws_spec(s@.skip(i as int));
                assert(split_ws_spec(rest) == seq![Seq::<u8>::empty()] + tail);
                assert(prep(curv, seq![Seq::<u8>::empty()] + tail) =~~= seq![curv] + tail);
                assert(views(done@) =~~= views(donev).push(curv));
                assert(views(donev) + prep(curv, split_ws_spec(rest)) =~~= views(done@) + prep(
                    cur@,
                    tail,
                ));
            }
        } else {
            cur.push(s[i]);
            i += 1;
            proof {
                let tail = split_ws_spec(s@.skip(i as int));
                assert(split_ws_spec(rest) == prep(seq![rest[0]], tail));
                assert(prep(curv, prep(seq![rest[0]], tail)) =~~= prep(cur@, tail));
                assert(views(donev) + prep(curv, split_ws_spec(rest)) =~~= views(done@) + prep(
                    cur@,
                    tail,
                ));
            }
        }
    }
    proof {
        assert(s@.skip(s@.len() as int) =~= Seq::<u8>::empty());
    }
    done.push(cur);
    proof {
        assert(views(done@) =~~= split_ws_spec(s@));
    }
    done
}

pub proof fn lemma_filter_push(s: Seq<Seq<u8>>, e: Seq<u8>, pred: spec_fn(Seq<u8>) -> bool)
    ensures
        s.push(e).filter(pred) == if pred(e) {
            s.filter(pred).push(e)
        } else {
            s.filter(pred)
        },
{
    reveal(Seq::filter);
    assert(s.push(e).len() > 0);
    assert(s.push(e).drop_last() =~~= s);
    assert(s.push(e).last() == e);
}

/// The whitespace tokens of a text, in order, without empties.
pub fn tokens(s: &Vec<u8>) -> (out: Vec<Vec<u8>>)
    ensures
        views(out@) == tokens_spec(s@),
{
    let pieces = split_ws(s);
    let mut out: Vec<Vec<u8>> = Vec::new();
    let mut i: usize = 0;
    let ghost pred = |t: Seq<u8>| t.len() > 0;
    proof {
        assert(views(pieces@).take(0) =~~= Seq::<Seq<u8>>::empty());
        assert(views(out@) =~~= Seq::<Seq<u8>>::empty().filter(pred));
    }
    while i < pieces.len()
        invariant
            i <= pieces@.len(),
            views(out@) == views(pieces@).take(i as int).filter(pred),
            pred == (|t: Seq<u8>| t.len() > 0),
        decreases pieces@.len() - i,
    {
        let ghost outv = out@;
        let ghost pre = views(pieces@).take(i as int);
        let ghost pre1 = views(pieces@).take(i + 1);
        proof {
            assert(pre1 =~~= pre.push(pieces@[i as int]@));
            lemma_filter_push(pre, pieces@[i as int]@, pred);
        }
        if pieces[i].len() > 0 {
            let piece = dup(&pieces[i]);
            out.push(piece);
            proof {
                assert(pre1.filter(pred) == pre.filter(pred).push(pieces@[i as int]@));
                assert(views(out@) =~~= views(outv).push(pieces@[i as int]@));
            }
        } else {
            proof {
                assert(pre1.filter(pred) == pre.filter(pred));
            }
        }
        i += 1;
    }
    proof {
        assert(views(pieces@).take(pieces@.len() as int) =~~= views(pieces@));
    }
    out
}

// ---------------------------------------------------------------------------
// Decimal numbers
// ---------------------------------------------------------------------------

/// The decimal digits of `n`, most significant first.
pub open spec fn dec_spec(n: nat) -> Seq<u8>
    decreases n,
{
    if n < 10 {
        seq![(48 + n) as u8]
    } else {
        dec_spec(n / 10) + seq![(48 + n % 10) as u8]
    }
}

pub fn u64_to_dec(n: u64) -> (out: Vec<u8>)
    ensures
        out@ == dec_spec(n as nat),
    decreases n,
{
    if n < 10 {
        let mut out: Vec<u8> = Vec::new();
        out.push(48 + n as u8);
        assert(out@ =~= dec_spec(n as nat));
        out
    } else {
        let mut out = u64_to_dec(n / 10);
        out.push(48 + (n % 10) as u8);
        assert(out@ =~= dec_spec(n as nat));
        out
    }
}

pub open spec fn is_digit(b: u8) -> bool {
    48 <= b && b <= 57
}

pub open spec fn all_digits(s: Seq<u8>) -> bool {
    forall|i: int| 0 <= i < s.len() ==> is_digit(#[trigger] s[i])
}

/// The value of a digit string, most significant first.
pub open spec fn dec_val(s: Seq<u8>) -> nat
    decreases s.len(),
{
    if s.len() == 0 {
        0
    } else {
        dec_val(s.drop_last()) * 10 + (s.last() - 48) as nat
    }
}

/// A digit string denotes a `u64`: non-empty, digits only, value in range.
pub open spec fn is_dec_u64(s: Seq<u8>) -> bool {
    s.len() > 0 && all_digits(s) && dec_val(s) <= u64::MAX
}

proof fn lemma_dec_val_prefix(s: Seq<u8>, i: int)
    requires
        0 <= i <= s.len(),
    ensures
        dec_val(s.take(i)) <= dec_val(s),
    decreases s.len() - i,
{
    if i < s.len() {
        assert(s.take(i + 1).drop_last() =~= s.take(i));
        assert(dec_val(s.take(i)) <= dec_val(s.take(i + 1)));
        lemma_dec_val_prefix(s, i + 1);
    } else {
        assert(s.take(i) =~= s);
    }
}

pub fn parse_u64(s: &Vec<u8>) -> (r: Option<u64>)
    ensures
        r matches Some(v) ==> is_dec_u64(s@) && v as nat == dec_val(s@),
        r is None ==> !is_dec_u64(s@),
{
    if s.len() == 0 {
        return None;
    }
    let mut acc: u64 = 0;
    let mut i: usize = 0;
    proof {
        assert(s@.take(0) =~= Seq::<u8>::empty());
    }
    while i < s.len()
        invariant
            i <= s@.len(),
            acc as nat == dec_val(s@.take(i as int)),
            all_digits(s@.take(i as int)),
        decreases s@.len() - i,
    {
        let b = s[i];
        if b < 48 || b > 57 {
            assert(!all_digits(s@));
            return None;
        }
        let d = b - 48;
        let step = match acc.checked_mul(10) {
            Some(m) => m.checked_add(d as u64),
            None => None,
        };
        proof {
            assert(s@.take(i + 1).drop_last() =~= s@.take(i as int));
            assert(dec_val(s@.take(i + 1)) == dec_val(s@.take(i as int)) * 10 + (b - 48) as nat);
        }
        match step {
            Some(v) => {
                acc = v;
            },
            None => {
                proof {
                    lemma_dec_val_prefix(s@, i + 1);
                }
                return None;
            },
        }
        i += 1;
    }
    proof {
        assert(s@.take(s@.len() as int) =~= s@);
    }
    Some(acc)
}

// ---------------------------------------------------------------------------
// Hexadecimal rendering
// ---------------------------------------------------------------------------

/// Lowercase hex digit for a value below 16.
pub open spec fn hex_digit(n: u8) -> u8 {
    if n < 10 {
        (48 + n) as u8
    } else {
        (87 + n) as u8
    }
}

/// Two lowercase hex digits for every byte, in order.
pub open spec fn hex_spec(s: Seq<u8>) -> Seq<u8> {
    Seq::new(
        s.len() * 2,
        |i: int|
            if i % 2 == 0 {
                hex_digit(s[i / 2] / 16)
            } else {
                hex_digit(s[i / 2] % 16)
            },
    )
}

pub fn to_hex(s: &Vec<u8>) -> (out: Vec<u8>)
    ensures
        out@ == hex_spec(s@),
{
    let mut out: Vec<u8> = Vec::new();
    let mut i: usize = 0;
    while i < s.len()
        invariant
            i <= s@.len(),
            out@.len() == i * 2,
            out@ =~= hex_spec(s@.take(i as int)),
        decreases s@.len() - i,
    {
        let b = s[i];
        let hi = b / 16;
        let lo = b % 16;
        out.push(if hi < 10 {
            48 + hi
        } else {
            87 + hi
        });
        out.push(if lo < 10 {
            48 + lo
        } else {
            87 + lo
        });
        i += 1;
        proof {
            assert(out@ =~= hex_spec(s@.take(i as int)));
        }
    }
    proof {
        assert(s@.take(s@.len() as int) =~= s@);
    }
    out
}

/// Every byte of a hex rendering is a digit or a lowercase letter; in
/// particular it is never a quote, a comma or a newline.
pub proof fn lemma_hex_bytes(s: Seq<u8>)
    ensures
        forall|i: int|
            0 <= i < hex_spec(s).len() ==> (48 <= #[trigger] hex_spec(s)[i] <= 57 || 97 <= hex_spec(
                s,
            )[i] <= 102),
{
}

// ---------------------------------------------------------------------------
// Lexicographic order
// ---------------------------------------------------------------------------

/// Byte-wise lexicographic "less than or equal".
pub open spec fn lex_le(a: Seq<u8>, b: Seq<u8>) -> bool
    decreases a.len(),
{
    if a.len() == 0 {
        true
    } else if b.len() == 0 {
        false
    } else if a[0] < b[0] {
        true
    } else if a[0] > b[0] {
        false
    } else {
        lex_le(a.drop_first(), b.drop_first())
    }
}

/// The order is total: any two byte strings compare one way or the other.
pub proof fn lemma_lex_total(a: Seq<u8>, b: Seq<u8>)
    ensures
        lex_le(a, b) || lex_le(b, a),
    decreases a.len(),
{
    if a.len() > 0 && b.len() > 0 && a[0] == b[0] {
        lemma_lex_total(a.drop_first(), b.drop_first());
    }
}

/// The order is transitive.
pub proof fn lemma_lex_trans(a: Seq<u8>, b: Seq<u8>, c: Seq<u8>)
    requires
        lex_le(a, b),
        lex_le(b, c),
    ensures
        lex_le(a, c),
    decreases a.len(),
{
    if a.len() > 0 && b.len() > 0 && c.len() > 0 && a[0] == b[0] && b[0] == c[0] {
        lemma_lex_trans(a.drop_first(), b.drop_first(), c.drop_first());
    }
}

// ---------------------------------------------------------------------------
// Deduplication
// ---------------------------------------------------------------------------

/// The distinct entries of a list, first occurrences kept in order.
pub open spec fn dedup_spec(ss: Seq<Seq<u8>>) -> Seq<Seq<u8>>
    decreases ss.len(),
{
    if ss.len() == 0 {
        Seq::<Seq<u8>>::empty()
    } else {
        let d = dedup_spec(ss.drop_last());
        if ss.drop_last().contains(ss.last()) {
            d
        } else {
            d.push(ss.last())
        }
    }
}

pub proof fn lemma_dedup_members(ss: Seq<Seq<u8>>)
    ensures
        forall|x: Seq<u8>| #[trigger] dedup_spec(ss).contains(x) <==> ss.contains(x),
    decreases ss.len(),
{
    if ss.len() > 0 {
        lemma_dedup_members(ss.drop_last());
        let d = dedup_spec(ss.drop_last());
        let out = dedup_spec(ss);
        assert(ss[ss.len() - 1] == ss.last());
        assert forall|x: Seq<u8>| ss.contains(x) implies #[trigger] out.contains(x) by {
            let i = choose|i: int| 0 <= i < ss.len() && ss[i] == x;
            if i < ss.len() - 1 {
                assert(ss.drop_last()[i] == x);
                assert(d.contains(x));
                let y = choose|y: int| 0 <= y < d.len() && d[y] == x;
                if ss.drop_last().contains(ss.last()) {
                    assert(out[y] == x);
                } else {
                    assert(out[y] == x);
                }
            } else {
                if ss.drop_last().contains(ss.last()) {
                    assert(d.contains(x));
                    let y = choose|y: int| 0 <= y < d.len() && d[y] == x;
                    assert(out[y] == x);
                } else {
                    assert(out[d.len() as int] == x);
                }
            }
        }
        assert forall|x: Seq<u8>| #[trigger] out.contains(x) implies ss.contains(x) by {
            let y = choose|y: int| 0 <= y < out.len() && out[y] == x;
            if y < d.len() {
                assert(d[y] == x);
                assert(d.contains(x));
                assert(ss.drop_last().contains(x));
                let i = choose|i: int| 0 <= i < ss.len() - 1 && ss.drop_last()[i] == x;
                assert(ss[i] == x);
            } else {
                assert(x == ss.last());
            }
        }
    }
}

/// Drop every repeated entry, keeping first occurrences in order.
pub fn dedup(ss: &Vec<Vec<u8>>) -> (out: Vec<Vec<u8>>)
    ensures
        views(out@) == dedup_spec(views(ss@)),
{
    let mut out: Vec<Vec<u8>> = Vec::new();
    let mut i: usize = 0;
    proof {
        assert(views(ss@).take(0) =~~= Seq::<Seq<u8>>::empty());
        assert(views(out@) =~~= dedup_spec(views(ss@).take(0)));
    }
    while i < ss.len()
        invariant
            i <= ss@.len(),
            views(out@) == dedup_spec(views(ss@).take(i as int)),
        decreases ss@.len() - i,
    {
        let ghost pre = views(ss@).take(i as int);
        let mut seen = false;
        let mut j: usize = 0;
        while j < out.len()
            invariant
                j <= out@.len(),
                i < ss@.len(),
                seen <==> exists|y: int| 0 <= y < j && views(out@)[y] == ss@[i as int]@,
            decreases out@.len() - j,
        {
            if bytes_eq(&out[j], &ss[i]) {
                proof {
                    assert(views(out@)[j as int] == ss@[i as int]@);
                }
                seen = true;
            }
            j += 1;
        }
        proof {
            assert(seen <==> views(out@).contains(ss@[i as int]@));
            lemma_dedup_members(pre);
            assert(views(ss@).take(i + 1).drop_last() =~~= pre);
            assert(views(ss@).take(i + 1).last() == ss@[i as int]@);
        }
        if !seen {
            let item = dup(&ss[i]);
            let ghost outv = views(out@);
            out.push(item);
            proof {
                assert(views(out@) =~~= outv.push(ss@[i as int]@));
            }
        }
        i += 1;
    }
    proof {
        assert(views(ss@).take(ss@.len() as int) =~~= views(ss@));
    }
    out
}

pub fn lex_le_exec(a: &Vec<u8>, b: &Vec<u8>) -> (r: bool)
    ensures
        r == lex_le(a@, b@),
{
    let mut i: usize = 0;
    proof {
        assert(a@.skip(0) =~= a@);
        assert(b@.skip(0) =~= b@);
    }
    loop
        invariant
            i <= a@.len(),
            i <= b@.len(),
            lex_le(a@, b@) == lex_le(a@.skip(i as int), b@.skip(i as int)),
        decreases a@.len() - i,
    {
        if i == a.len() {
            assert(a@.skip(i as int).len() == 0);
            return true;
        }
        if i == b.len() {
            assert(b@.skip(i as int).len() == 0 && a@.skip(i as int).len() > 0);
            return false;
        }
        let x = a[i];
        let y = b[i];
        assert(a@.skip(i as int)[0] == x && b@.skip(i as int)[0] == y);
        if x < y {
            return true;
        }
        if x > y {
            return false;
        }
        proof {
            assert(a@.skip(i as int).drop_first() =~= a@.skip(i + 1));
            assert(b@.skip(i as int).drop_first() =~= b@.skip(i + 1));
        }
        i += 1;
    }
}

} // verus!
