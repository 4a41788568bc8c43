use vstd::prelude::*;

use crate::bytes::{
    dup, free_of, hex_spec, lemma_hex_bytes, lemma_replace_rm, lemma_split_nonempty, replace,
    replace_spec, split, split_spec, to_hex, trim_end, trim_end_spec, vec1, views,
};
use crate::digest::{sha256, sha256_of};
use crate::document::{
    body_spec, doc_tokens_spec, doc_terms_seq, parse_doc, title_spec, DocView, Document,
};
use crate::marks::{apos_mark, quote_mark};
use crate::table::{akeys, amap, counts_map, table_bump, unique_keys};

verus! {

/// The note corpus: every segmented document keyed by its content hash,
/// and the corpus-wide document frequency of every term.
pub struct Corpus {
    pub documents: Vec<(Vec<u8>, Document)>,
    pub terms: Vec<(Vec<u8>, u64)>,
}

/// The mathematical reading of a corpus: two finite maps.
pub struct CorpusView {
    pub documents: Map<Seq<u8>, DocView>,
    pub terms: Map<Seq<u8>, u64>,
}

// ---------------------------------------------------------------------------
// The document list as a map
// ---------------------------------------------------------------------------

pub open spec fn dkeys(s: Seq<(Vec<u8>, Document)>) -> Seq<Seq<u8>> {
    s.map_values(|p: (Vec<u8>, Document)| p.0@)
}

pub open spec fn unique_ids(s: Seq<(Vec<u8>, Document)>) -> bool {
    forall|i: int, j: int| 0 <= i < j < s.len() ==> #[trigger] s[i].0@ != #[trigger] s[j].0@
}

/// The map a document list denotes; on a duplicate id the later entry wins.
pub open spec fn dmap(s: Seq<(Vec<u8>, Document)>) -> Map<Seq<u8>, DocView>
    decreases s.len(),
{
    if s.len() == 0 {
        Map::<Seq<u8>, DocView>::empty()
    } else {
        dmap(s.drop_last()).insert(s.last().0@, s.last().1@)
    }
}

pub proof fn lemma_dmap_dom(s: Seq<(Vec<u8>, Document)>, k: Seq<u8>)
    ensures
        dmap(s).contains_key(k) <==> exists|i: int| 0 <= i < s.len() && #[trigger] s[i].0@ == k,
    decreases s.len(),
{
    if s.len() > 0 {
        lemma_dmap_dom(s.drop_last(), k);
        if s.last().0@ == k {
            assert(s[s.len() - 1].0@ == k);
        } else if dmap(s).contains_key(k) {
            let i = choose|i: int| 0 <= i < s.len() - 1 && #[trigger] s.drop_last()[i].0@ == k;
            assert(s[i].0@ == k);
        } else {
            assert forall|i: int| 0 <= i < s.len() implies #[trigger] s[i].0@ != k by {
                if i < s.len() - 1 {
                    assert(s.drop_last()[i].0@ != k);
                }
            }
        }
    }
}

pub proof fn lemma_dmap_at(s: Seq<(Vec<u8>, Document)>, i: int)
    requires
        unique_ids(s),
        0 <= i < s.len(),
    ensures
        dmap(s).contains_key(s[i].0@),
        dmap(s)[s[i].0@] == s[i].1@,
    decreases s.len(),
{
    if i == s.len() - 1 {
    } else {
        assert(unique_ids(s.drop_last())) by {
            assert(forall|x: int, y: int|
                0 <= x < y < s.len() - 1 ==> #[trigger] s.drop_last()[x].0@ != #[trigger] s.drop_last()[y].0@);
        }
        lemma_dmap_at(s.drop_last(), i);
        assert(s.drop_last()[i] == s[i]);
        assert(s[i].0@ != s.last().0@);
    }
}

pub proof fn lemma_dmap_push(s: Seq<(Vec<u8>, Document)>, p: (Vec<u8>, Document))
    ensures
        dmap(s.push(p)) == dmap(s).insert(p.0@, p.1@),
{
    assert(s.push(p).drop_last() =~= s);
    assert(s.push(p).last() == p);
}

pub proof fn lemma_dmap_update(s: Seq<(Vec<u8>, Document)>, i: int, p: (Vec<u8>, Document))
    requires
        unique_ids(s),
        0 <= i < s.len(),
        p.0@ == s[i].0@,
    ensures
        dmap(s.update(i, p)) == dmap(s).insert(p.0@, p.1@),
    decreases s.len(),
{
    let t = s.update(i, p);
    if i == s.len() - 1 {
        assert(t.drop_last() =~= s.drop_last());
        assert(t.last() == p);
    } else {
        assert(unique_ids(s.drop_last())) by {
            assert(forall|x: int, y: int|
                0 <= x < y < s.len() - 1 ==> #[trigger] s.drop_last()[x].0@ != #[trigger] s.drop_last()[y].0@);
        }
        lemma_dmap_update(s.drop_last(), i, p);
        assert(t.drop_last() =~= s.drop_last().update(i, p));
        assert(t.last() == s.last());
        assert(s[i].0@ != s.last().0@);
        assert(dmap(t) =~= dmap(s).insert(p.0@, p.1@));
    }
}

// ---------------------------------------------------------------------------
// Document frequency
// ---------------------------------------------------------------------------

/// In how many of the documents a term occurs.
pub open spec fn df_count(docs: Seq<(Vec<u8>, Document)>, k: Seq<u8>) -> nat
    decreases docs.len(),
{
    if docs.len() == 0 {
        0
    } else {
        df_count(docs.drop_last(), k) + if amap(docs.last().1.terms@).contains_key(k) {
            1nat
        } else {
            0nat
        }
    }
}

/// The document frequency of every term that occurs anywhere.
pub open spec fn df_map(docs: Seq<(Vec<u8>, Document)>) -> Map<Seq<u8>, u64> {
    Map::new(
        |k: Seq<u8>|
            exists|i: int|
                0 <= i < docs.len() && amap((#[trigger] docs[i].1).terms@).contains_key(k),
        |k: Seq<u8>| df_count(docs, k) as u64,
    )
}

pub open spec fn distinct_seqs(ks: Seq<Seq<u8>>) -> bool {
    forall|i: int, j: int| 0 <= i < j < ks.len() ==> ks[i] != ks[j]
}

/// Raise each key of `ks` by one in `m`, starting absent keys at one.
pub open spec fn bump_keys(m: Map<Seq<u8>, u64>, ks: Seq<Seq<u8>>) -> Map<Seq<u8>, u64>
    decreases ks.len(),
{
    if ks.len() == 0 {
        m
    } else {
        let m1 = bump_keys(m, ks.drop_last());
        m1.insert(
            ks.last(),
            if m1.contains_key(ks.last()) {
                (m1[ks.last()] + 1) as u64
            } else {
                1u64
            },
        )
    }
}

pub proof fn lemma_bump_keys(m: Map<Seq<u8>, u64>, ks: Seq<Seq<u8>>, k: Seq<u8>)
    requires
        distinct_seqs(ks),
        forall|x: Seq<u8>| m.contains_key(x) ==> #[trigger] m[x] < u64::MAX,
    ensures
        bump_keys(m, ks).contains_key(k) <==> (m.contains_key(k) || ks.contains(k)),
        ks.contains(k) ==> bump_keys(m, ks)[k] == if m.contains_key(k) {
            (m[k] + 1) as u64
        } else {
            1u64
        },
        !ks.contains(k) && m.contains_key(k) ==> bump_keys(m, ks)[k] == m[k],
    decreases ks.len(),
{
    if ks.len() > 0 {
        let last = ks.last();
        let kd = ks.drop_last();
        assert(distinct_seqs(kd)) by {
            assert(forall|x: int, y: int|
                0 <= x < y < kd.len() ==> #[trigger] kd[x] != #[trigger] kd[y]) by {
                assert(forall|x: int| 0 <= x < kd.len() ==> kd[x] == ks[x]);
            }
        }
        assert(!kd.contains(last)) by {
            if kd.contains(last) {
                let x = choose|x: int| 0 <= x < kd.len() && kd[x] == last;
                assert(ks[x] == ks[ks.len() - 1]);
            }
        }
        lemma_bump_keys(m, kd, k);
        lemma_bump_keys(m, kd, last);
        assert(ks.contains(k) <==> (kd.contains(k) || k == last)) by {
            if ks.contains(k) {
                let x = choose|x: int| 0 <= x < ks.len() && ks[x] == k;
                if x < ks.len() - 1 {
                    assert(kd[x] == k);
                }
            }
            if kd.contains(k) {
                let x = choose|x: int| 0 <= x < kd.len() && kd[x] == k;
                assert(ks[x] == k);
            }
            assert(ks[ks.len() - 1] == last);
        }
    }
}

pub proof fn lemma_df_zero(docs: Seq<(Vec<u8>, Document)>, k: Seq<u8>)
    requires
        forall|i: int|
            0 <= i < docs.len() ==> !amap((#[trigger] docs[i].1).terms@).contains_key(k),
    ensures
        df_count(docs, k) == 0,
    decreases docs.len(),
{
    if docs.len() > 0 {
        assert(forall|i: int|
            0 <= i < docs.len() - 1 ==> docs.drop_last()[i] == docs[i]);
        lemma_df_zero(docs.drop_last(), k);
        assert(docs[docs.len() - 1] == docs.last());
    }
}

pub proof fn lemma_df_le(docs: Seq<(Vec<u8>, Document)>)
    ensures
        forall|k: Seq<u8>| #[trigger] df_count(docs, k) <= docs.len(),
    decreases docs.len(),
{
    if docs.len() > 0 {
        lemma_df_le(docs.drop_last());
        assert forall|k: Seq<u8>| #[trigger] df_count(docs, k) <= docs.len() by {
            assert(df_count(docs.drop_last(), k) <= docs.drop_last().len());
        }
    }
}

/// Folding one more document into the frequency table bumps exactly the
/// keys of that document's term table.
pub proof fn lemma_df_push(docs: Seq<(Vec<u8>, Document)>, i: int)
    requires
        0 <= i < docs.len(),
        docs.len() < u64::MAX,
        unique_keys(docs[i].1.terms@),
    ensures
        df_map(docs.take(i + 1)) == bump_keys(df_map(docs.take(i)), akeys(docs[i].1.terms@)),
{
    let m = df_map(docs.take(i));
    let ks = akeys(docs[i].1.terms@);
    let lhs = df_map(docs.take(i + 1));
    let rhs = bump_keys(m, ks);
    assert(distinct_seqs(ks)) by {
        assert(forall|x: int|
            0 <= x < docs[i].1.terms@.len() ==> #[trigger] ks[x] == docs[i].1.terms@[x].0@);
    }
    assert(forall|x: Seq<u8>| m.contains_key(x) ==> #[trigger] m[x] < u64::MAX) by {
        lemma_df_le(docs.take(i));
    }
    assert(docs.take(i + 1).drop_last() =~= docs.take(i));
    assert(docs.take(i + 1).last() == docs[i]);
    assert forall|k: Seq<u8>| true implies (lhs.contains_key(k) <==> rhs.contains_key(k)) by {
        lemma_bump_keys(m, ks, k);
        lemma_amap_keys(docs[i].1.terms@, k);
        if lhs.contains_key(k) {
            let x = choose|x: int|
                0 <= x < i + 1 && amap((#[trigger] docs.take(i + 1)[x].1).terms@).contains_key(k);
            if x < i {
                assert(amap((docs.take(i)[x].1).terms@).contains_key(k));
            }
        }
        if m.contains_key(k) {
            let x = choose|x: int|
                0 <= x < i && amap((#[trigger] docs.take(i)[x].1).terms@).contains_key(k);
            assert(amap((docs.take(i + 1)[x].1).terms@).contains_key(k));
        }
        if ks.contains(k) {
            assert(amap((docs.take(i + 1)[i].1).terms@).contains_key(k));
        }
    }
    assert forall|k: Seq<u8>| lhs.contains_key(k) implies lhs[k] == rhs[k] by {
        lemma_bump_keys(m, ks, k);
        lemma_amap_keys(docs[i].1.terms@, k);
        assert(df_count(docs.take(i + 1), k) == df_count(docs.take(i), k) + if amap(
            docs[i].1.terms@,
        ).contains_key(k) {
            1nat
        } else {
            0nat
        });
        lemma_df_le(docs.take(i));
        if amap(docs[i].1.terms@).contains_key(k) && !m.contains_key(k) {
            assert(forall|x: int|
                0 <= x < i ==> !amap((#[trigger] docs.take(i)[x].1).terms@).contains_key(k));
            lemma_df_zero(docs.take(i), k);
        }
    }
    assert(lhs =~= rhs);
}

/// A term table contains a key exactly when the key list carries it.
pub proof fn lemma_amap_keys(s: Seq<(Vec<u8>, u64)>, k: Seq<u8>)
    ensures
        amap(s).contains_key(k) <==> akeys(s).contains(k),
{
    crate::table::lemma_amap_dom(s, k);
    assert(forall|x: int| 0 <= x < s.len() ==> #[trigger] akeys(s)[x] == s[x].0@);
    if amap(s).contains_key(k) {
        let x = choose|x: int| 0 <= x < s.len() && #[trigger] s[x].0@ == k;
        assert(akeys(s)[x] == k);
    }
    if akeys(s).contains(k) {
        let x = choose|x: int| 0 <= x < akeys(s).len() && akeys(s)[x] == k;
        assert(s[x].0@ == k);
    }
}

impl View for Corpus {
    type V = CorpusView;

    open spec fn view(&self) -> CorpusView {
        CorpusView { documents: dmap(self.documents@), terms: amap(self.terms@) }
    }
}

// ---------------------------------------------------------------------------
// Identity and segmentation
// ---------------------------------------------------------------------------

/// A document's identity: the hex form of the digest of its stored body,
/// trailing whitespace trimmed. Stable for byte-identical bodies.
pub open spec fn doc_id_spec(text: Seq<u8>) -> Seq<u8> {
    hex_spec(sha256_of(trim_end_spec(text)))
}

/// `#` — the heading delimiter files are segmented on.
pub open spec fn heading_mark() -> Seq<u8> {
    seq![35u8]
}

/// The heading sections of a file: everything between `#` delimiters,
/// the part before the first one dropped as front-matter.
pub open spec fn sections_spec(content: Seq<u8>) -> Seq<Seq<u8>> {
    split_spec(content, heading_mark()).drop_first()
}

/// The full reading of one section with a given source path.
pub open spec fn doc_of_chunk(chunk: Seq<u8>, source: Seq<u8>) -> DocView {
    DocView {
        title: title_spec(chunk),
        source: source,
        text: body_spec(chunk),
        terms: counts_map(doc_terms_seq(body_spec(chunk), title_spec(chunk))),
        length: doc_tokens_spec(body_spec(chunk), title_spec(chunk)).len() as u64,
    }
}

/// Fold the sections of a file into a document map: sections with an
/// empty body are dropped, and a section overwrites any document that
/// already carries its id.
pub open spec fn add_chunks(
    m: Map<Seq<u8>, DocView>,
    chunks: Seq<Seq<u8>>,
    source: Seq<u8>,
) -> Map<Seq<u8>, DocView>
    decreases chunks.len(),
{
    if chunks.len() == 0 {
        m
    } else {
        let m1 = if body_spec(chunks[0]).len() > 0 {
            m.insert(doc_id_spec(body_spec(chunks[0])), doc_of_chunk(chunks[0], source))
        } else {
            m
        };
        add_chunks(m1, chunks.drop_first(), source)
    }
}

impl Corpus {
    /// The representation invariant: both tables really are maps, and
    /// every stored field is free of raw quotes.
    pub open spec fn inv(&self) -> bool {
        &&& unique_ids(self.documents@)
        &&& unique_keys(self.terms@)
        &&& forall|i: int| 0 <= i < self.documents@.len() ==> (#[trigger] self.documents@[i].1).inv()
        &&& forall|i: int| 0 <= i < self.documents@.len() ==> free_of(
            #[trigger] self.documents@[i].0@,
            34,
        )
        &&& forall|i: int| 0 <= i < self.terms@.len() ==> free_of(#[trigger] self.terms@[i].0@, 34)
    }

    pub fn new() -> (c: Corpus)
        ensures
            c@.documents == Map::<Seq<u8>, DocView>::empty(),
            c@.terms == Map::<Seq<u8>, u64>::empty(),
            c.inv(),
            c.documents@.len() == 0,
            c.terms@.len() == 0,
    {
        Corpus { documents: Vec::new(), terms: Vec::new() }
    }

    /// Look one document up by its id.
    pub fn get(&self, id: &Vec<u8>) -> (r: Option<&Document>)
        requires
            self.inv(),
        ensures
            match r {
                Some(d) => self@.documents.contains_key(id@) && d@ == self@.documents[id@],
                None => !self@.documents.contains_key(id@),
            },
    {
        let mut i: usize = 0;
        while i < self.documents.len()
            invariant
                i <= self.documents@.len(),
                self.inv(),
                forall|j: int| 0 <= j < i ==> #[trigger] self.documents@[j].0@ != id@,
            decreases self.documents@.len() - i,
        {
            if crate::bytes::bytes_eq(&self.documents[i].0, id) {
                proof {
                    lemma_dmap_at(self.documents@, i as int);
                }
                return Some(&self.documents[i].1);
            }
            i += 1;
        }
        proof {
            lemma_dmap_dom(self.documents@, id@);
        }
        None
    }

    /// Whether a document with this id is in the corpus.
    pub fn contains_doc(&self, id: &Vec<u8>) -> (r: bool)
        requires
            self.inv(),
        ensures
            r == self@.documents.contains_key(id@),
    {
        let found = self.get(id);
        found.is_some()
    }

    /// Insert a document under its id; an existing entry with that id is
    /// replaced.
    pub fn put_document(&mut self, id: Vec<u8>, d: Document)
        requires
            old(self).inv(),
            d.inv(),
            free_of(id@, 34),
        ensures
            final(self).inv(),
            final(self)@.documents == old(self)@.documents.insert(id@, d@),
            final(self)@.terms == old(self)@.terms,
            final(self).terms@ == old(self).terms@,
    {
        let ghost idv = id@;
        let mut i: usize = 0;
        while i < self.documents.len()
            invariant
                i <= self.documents@.len(),
                self.documents@ == old(self).documents@,
                self.terms@ == old(self).terms@,
                old(self).inv(),
                d.inv(),
                free_of(id@, 34),
                forall|j: int| 0 <= j < i ==> #[trigger] self.documents@[j].0@ != idv,
                idv == id@,
            decreases self.documents@.len() - i,
        {
            if crate::bytes::bytes_eq(&self.documents[i].0, &id) {
                let ghost prev = self.documents@;
                let pair = (id, d);
                vstd::pervasive::VecAdditionalExecFns::set(&mut self.documents, i, pair);
                proof {
                    lemma_dmap_update(prev, i as int, self.documents@[i as int]);
                    assert(dkeys(self.documents@) =~= dkeys(prev));
                    assert(unique_ids(self.documents@)) by {
                        assert(forall|x: int|
                            0 <= x < self.documents@.len() ==> #[trigger] self.documents@[x].0@
                                == dkeys(self.documents@)[x]);
                        assert(forall|x: int|
                            0 <= x < prev.len() ==> #[trigger] prev[x].0@ == dkeys(prev)[x]);
                    }
                }
                return ;
            }
            i += 1;
        }
        let ghost prev = self.documents@;
        self.documents.push((id, d));
        proof {
            lemma_dmap_push(prev, self.documents@.last());
            assert(unique_ids(self.documents@)) by {
                assert(forall|x: int| 0 <= x < prev.len() ==> #[trigger] self.documents@[x] == prev[x]);
                assert(forall|x: int| 0 <= x < prev.len() ==> #[trigger] prev[x].0@ != idv);
            }
        }
    }

    /// Rebuild the corpus-wide term table: for every term, the number of
    /// documents that contain it (its document frequency).
    pub fn document_frequency(&mut self)
        requires
            old(self).inv(),
            old(self).documents@.len() < u64::MAX,
        ensures
            final(self).inv(),
            final(self)@.terms == df_map(old(self).documents@),
            final(self)@.documents == old(self)@.documents,
            final(self).documents@ == old(self).documents@,
    {
        let ghost docs = self.documents@;
        self.terms = Vec::new();
        let mut i: usize = 0;
        proof {
            assert(docs.take(0) =~= Seq::<(Vec<u8>, Document)>::empty());
            assert(amap(self.terms@) =~= df_map(docs.take(0)));
        }
        while i < self.documents.len()
            invariant
                i <= docs.len(),
                docs == self.documents@,
                docs.len() < u64::MAX,
                old(self).inv(),
                self.documents@ == old(self).documents@,
                unique_keys(self.terms@),
                forall|x: int| 0 <= x < self.terms@.len() ==> free_of(#[trigger] self.terms@[x].0@, 34),
                amap(self.terms@) == df_map(docs.take(i as int)),
            decreases docs.len() - i,
        {
            let ghost m = df_map(docs.take(i as int));
            let ghost ks = akeys(docs[i as int].1.terms@);
            proof {
                assert(docs[i as int].1.inv());
                assert(distinct_seqs(ks)) by {
                    assert(forall|x: int|
                        0 <= x < docs[i as int].1.terms@.len() ==> #[trigger] ks[x] == docs[i as int].1.terms@[x].0@);
                }
                lemma_df_le(docs.take(i as int));
                assert(ks.take(0) =~= Seq::<Seq<u8>>::empty());
            }
            let n = self.documents[i].1.terms.len();
            let mut j: usize = 0;
            while j < n
                invariant
                    j <= n,
                    i < docs.len(),
                    docs == self.documents@,
                    docs.len() < u64::MAX,
                    old(self).inv(),
                    self.documents@ == old(self).documents@,
                    n == docs[i as int].1.terms@.len(),
                    m == df_map(docs.take(i as int)),
                    ks == akeys(docs[i as int].1.terms@),
                    distinct_seqs(ks),
                    forall|k: Seq<u8>| m.contains_key(k) ==> #[trigger] m[k] < u64::MAX,
                    forall|x: int|
                        0 <= x < self.terms@.len() ==> free_of(#[trigger] self.terms@[x].0@, 34),
                    unique_keys(self.terms@),
                    amap(self.terms@) == bump_keys(m, ks.take(j as int)),
                decreases n - j,
            {
                let ghost key = ks[j as int];
                let ghost prev_terms = self.terms@;
                proof {
                    assert(docs[i as int].1.inv());
                    assert(key == docs[i as int].1.terms@[j as int].0@);
                    assert(free_of(key, 34));
                    lemma_bump_keys(m, ks.take(j as int), key);
                    assert(!ks.take(j as int).contains(key)) by {
                        if ks.take(j as int).contains(key) {
                            let x = choose|x: int|
                                0 <= x < j && #[trigger] ks.take(j as int)[x] == key;
                            assert(ks[x] == ks[j as int]);
                        }
                    }
                }
                table_bump(&mut self.terms, &self.documents[i].1.terms[j].0);
                proof {
                    assert(ks.take(j + 1) =~= ks.take(j as int).push(key));
                    assert(bump_keys(m, ks.take(j as int).push(key)) == amap(self.terms@)) by {
                        assert(ks.take(j as int).push(key).drop_last() =~= ks.take(j as int));
                    }
                    assert forall|x: int| 0 <= x < self.terms@.len() implies free_of(
                        #[trigger] self.terms@[x].0@,
                        34,
                    ) by {
                        assert(akeys(self.terms@)[x] == self.terms@[x].0@);
                        if amap(prev_terms).contains_key(key) {
                            assert(akeys(self.terms@) == akeys(prev_terms));
                            assert(akeys(prev_terms).len() == prev_terms.len());
                            assert(akeys(prev_terms)[x] == prev_terms[x].0@);
                        } else {
                            assert(akeys(self.terms@) == akeys(prev_terms).push(key));
                            assert(akeys(prev_terms).len() == prev_terms.len());
                            assert(akeys(self.terms@).len() == self.terms@.len());
                            if x < prev_terms.len() {
                                assert(akeys(prev_terms)[x] == prev_terms[x].0@);
                            } else {
                                assert(x == prev_terms.len());
                                assert(akeys(prev_terms).push(key)[x] == key);
                            }
                        }
                    }
                }
                j += 1;
            }
            proof {
                assert(ks.take(n as int) =~= ks);
                lemma_df_push(docs, i as int);
            }
            i += 1;
        }
        proof {
            assert(docs.take(docs.len() as int) =~= docs);
        }
    }

    /// Segment a file's content into documents and add each to the
    /// corpus: the part before the first `#` is front-matter and is
    /// dropped, sections with an empty body are dropped, and a section's
    /// id is the digest of its trimmed body, so an unchanged note lands
    /// on its own entry again.
    pub fn add_text(&mut self, source: &Vec<u8>, content: &Vec<u8>)
        requires
            old(self).inv(),
        ensures
            final(self).inv(),
            final(self)@.documents == add_chunks(
                old(self)@.documents,
                sections_spec(content@),
                replace_spec(source@, quote_mark(), apos_mark()),
            ),
            final(self)@.terms == old(self)@.terms,
            final(self).terms@ == old(self).terms@,
    {
        let quote = vec1(34);
        let apos = vec1(39);
        let clean_source = replace(source, &quote, &apos);
        proof {
            lemma_replace_rm(source@, 34, apos_mark());
        }
        let hash = vec1(35);
        let chunks = split(content, &hash);
        proof {
            lemma_split_nonempty(content@, heading_mark());
        }
        let ghost cs = sections_spec(content@);
        let mut i: usize = 1;
        proof {
            assert(cs.skip(0) =~~= cs);
        }
        while i < chunks.len()
            invariant
                1 <= i <= chunks@.len(),
                cs == views(chunks@).drop_first(),
                cs.len() == chunks@.len() - 1,
                self.inv(),
                quote@ == quote_mark(),
                apos@ == apos_mark(),
                clean_source@ == replace_spec(source@, quote_mark(), apos_mark()),
                free_of(clean_source@, 34),
                add_chunks(
                    old(self)@.documents,
                    cs,
                    clean_source@,
                ) == add_chunks(dmap(self.documents@), cs.skip(i - 1), clean_source@),
                amap(self.terms@) == old(self)@.terms,
                self.terms@ == old(self).terms@,
            decreases chunks@.len() - i,
        {
            let ghost rest = cs.skip(i - 1);
            let ghost pre_docs = dmap(self.documents@);
            proof {
                assert(rest[0] == views(chunks@)[i as int]);
                assert(rest.drop_first() =~= cs.skip(i as int));
            }
            let mut d = parse_doc(&chunks[i]);
            if d.text.len() > 0 {
                let trimmed = trim_end(&d.text);
                let digest = sha256(&trimmed);
                let id = to_hex(&digest);
                proof {
                    lemma_hex_bytes(digest@);
                    assert(free_of(id@, 34));
                    assert(id@ == doc_id_spec(d.text@));
                }
                d.source = dup(&clean_source);
                d.term_frequency();
                self.put_document(id, d);
                proof {
                    assert(dmap(self.documents@) == pre_docs.insert(
                        doc_id_spec(body_spec(rest[0])),
                        doc_of_chunk(rest[0], clean_source@),
                    ));
                }
            }
            proof {
                assert(add_chunks(pre_docs, rest, clean_source@) == add_chunks(
                    dmap(self.documents@),
                    cs.skip(i as int),
                    clean_source@,
                ));
            }
            i += 1;
        }
        proof {
            assert(cs.skip(cs.len() as int) =~~= Seq::<Seq<u8>>::empty());
        }
    }
}

} // verus!
