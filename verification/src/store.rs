use vstd::prelude::*;

use crate::bytes::{
    all_digits, dec_spec, dec_val, dup, find_byte, free_of, is_digit, parse_u64, push_all,
    u64_to_dec,
};
use crate::corpus::{dmap, unique_ids, Corpus};
use crate::document::{DocView, Document};
use crate::marks::quote_mark;
use crate::table::{akeys, amap, table_get, table_set, unique_keys};

verus! {

// The flat store: two header-less tables of quoted, comma-delimited rows.
// A field stands between double quotes and never contains one (quotes are
// normalized away before anything is stored); numeric columns of the term
// table stand bare.

/// One row of the document table: `source, title, text, id, length`.
pub struct DocRow {
    pub source: Vec<u8>,
    pub title: Vec<u8>,
    pub text: Vec<u8>,
    pub id: Vec<u8>,
    pub length: u64,
}

pub struct DocRowV {
    pub source: Seq<u8>,
    pub title: Seq<u8>,
    pub text: Seq<u8>,
    pub id: Seq<u8>,
    pub length: u64,
}

impl View for DocRow {
    type V = DocRowV;

    open spec fn view(&self) -> DocRowV {
        DocRowV {
            source: self.source@,
            title: self.title@,
            text: self.text@,
            id: self.id@,
            length: self.length,
        }
    }
}

/// One row of the term table: `id, term, per-document count, document
/// frequency`.
pub struct TermRow {
    pub id: Vec<u8>,
    pub term: Vec<u8>,
    pub count: u64,
    pub df: u64,
}

pub struct TermRowV {
    pub id: Seq<u8>,
    pub term: Seq<u8>,
    pub count: u64,
    pub df: u64,
}

impl View for TermRow {
    type V = TermRowV;

    open spec fn view(&self) -> TermRowV {
        TermRowV { id: self.id@, term: self.term@, count: self.count, df: self.df }
    }
}

pub open spec fn drviews(l: Seq<DocRow>) -> Seq<DocRowV> {
    l.map_values(|r: DocRow| r@)
}

pub open spec fn trviews(l: Seq<TermRow>) -> Seq<TermRowV> {
    l.map_values(|r: TermRow| r@)
}

// ---------------------------------------------------------------------------
// Parsing, specified
// ---------------------------------------------------------------------------

/// The first position at or after `pos` holding `b`, or -1.
pub open spec fn find_idx(s: Seq<u8>, pos: int, b: u8) -> int
    decreases s.len() - pos,
        when 0 <= pos <= s.len()
{
    if pos >= s.len() {
        -1
    } else if s[pos] == b {
        pos
    } else {
        find_idx(s, pos + 1, b)
    }
}

pub proof fn lemma_find_idx(s: Seq<u8>, pos: int, b: u8)
    requires
        0 <= pos <= s.len(),
    ensures
        find_idx(s, pos, b) >= 0 ==> pos <= find_idx(s, pos, b) < s.len() && s[find_idx(s, pos, b)]
            == b && forall|k: int| pos <= k < find_idx(s, pos, b) ==> s[k] != b,
        find_idx(s, pos, b) < 0 ==> forall|k: int| pos <= k < s.len() ==> s[k] != b,
    decreases s.len() - pos,
{
    if pos < s.len() && s[pos] != b {
        lemma_find_idx(s, pos + 1, b);
    }
}

/// A quoted field starting exactly at `pos`: its content and the position
/// just past the closing quote.
pub open spec fn parse_field(s: Seq<u8>, pos: int) -> Option<(Seq<u8>, int)> {
    if 0 <= pos < s.len() && s[pos] == 34 {
        let j = find_idx(s, pos + 1, 34);
        if j >= 0 {
            Some((s.subrange(pos + 1, j), j + 1))
        } else {
            None
        }
    } else {
        None
    }
}

pub proof fn lemma_parse_field(s: Seq<u8>, pos: int)
    requires
        parse_field(s, pos) is Some,
    ensures
        ({
            let (f, p2) = parse_field(s, pos)->Some_0;
            &&& 0 <= pos
            &&& pos + 2 + f.len() == p2
            &&& p2 <= s.len()
            &&& free_of(f, 34)
        }),
{
    lemma_find_idx(s, pos + 1, 34);
}

/// The end of the digit run starting at `pos`.
pub open spec fn digits_end(s: Seq<u8>, pos: int) -> int
    decreases s.len() - pos,
        when 0 <= pos <= s.len()
{
    if pos >= s.len() {
        pos
    } else if is_digit(s[pos]) {
        digits_end(s, pos + 1)
    } else {
        pos
    }
}

pub proof fn lemma_digits_end(s: Seq<u8>, pos: int)
    requires
        0 <= pos <= s.len(),
    ensures
        pos <= digits_end(s, pos) <= s.len(),
        forall|k: int| pos <= k < digits_end(s, pos) ==> is_digit(s[k]),
        digits_end(s, pos) < s.len() ==> !is_digit(s[digits_end(s, pos)]),
    decreases s.len() - pos,
{
    if pos < s.len() && is_digit(s[pos]) {
        lemma_digits_end(s, pos + 1);
    }
}

/// A bare decimal number starting exactly at `pos`, fitting a `u64`.
pub open spec fn parse_number(s: Seq<u8>, pos: int) -> Option<(u64, int)> {
    if 0 <= pos <= s.len() {
        let j = digits_end(s, pos);
        if j > pos && dec_val(s.subrange(pos, j)) <= u64::MAX {
            Some((dec_val(s.subrange(pos, j)) as u64, j))
        } else {
            None
        }
    } else {
        None
    }
}

/// One document row starting at `pos`, newline included.
pub open spec fn parse_doc_row(s: Seq<u8>, pos: int) -> Option<(DocRowV, int)> {
    match parse_field(s, pos) {
        None => None,
        Some((source, p1)) => if p1 < s.len() && s[p1] == 44 {
            match parse_field(s, p1 + 1) {
                None => None,
                Some((title, p2)) => if p2 < s.len() && s[p2] == 44 {
                    match parse_field(s, p2 + 1) {
                        None => None,
                        Some((text, p3)) => if p3 < s.len() && s[p3] == 44 {
                            match parse_field(s, p3 + 1) {
                                None => None,
                                Some((id, p4)) => if p4 < s.len() && s[p4] == 44 {
                                    match parse_field(s, p4 + 1) {
                                        None => None,
                                        Some((lenf, p5)) => if lenf.len() > 0 && all_digits(lenf)
                                            && dec_val(lenf) <= u64::MAX && p5 < s.len() && s[p5]
                                            == 10 {
                                            Some(
                                                (
                                                    DocRowV {
                                                        source,
                                                        title,
                                                        text,
                                                        id,
                                                        length: dec_val(lenf) as u64,
                                                    },
                                                    p5 + 1,
                                                ),
                                            )
                                        } else {
                                            None
                                        },
                                    }
                                } else {
                                    None
                                },
                            }
                        } else {
                            None
                        },
                    }
                } else {
                    None
                },
            }
        } else {
            None
        },
    }
}

/// One term row starting at `pos`, newline included.
pub open spec fn parse_term_row(s: Seq<u8>, pos: int) -> Option<(TermRowV, int)> {
    match parse_field(s, pos) {
        None => None,
        Some((id, p1)) => if p1 < s.len() && s[p1] == 44 {
            match parse_field(s, p1 + 1) {
                None => None,
                Some((term, p2)) => if p2 < s.len() && s[p2] == 44 {
                    match parse_number(s, p2 + 1) {
                        None => None,
                        Some((count, p3)) => if p3 < s.len() && s[p3] == 44 {
                            match parse_number(s, p3 + 1) {
                                None => None,
                                Some((df, p4)) => if p4 < s.len() && s[p4] == 10 {
                                    Some((TermRowV { id, term, count, df }, p4 + 1))
                                } else {
                                    None
                                },
                            }
                        } else {
                            None
                        },
                    }
                } else {
                    None
                },
            }
        } else {
            None
        },
    }
}

/// The whole document table: rows back to back, ending exactly at the end.
pub open spec fn parse_doc_rows(s: Seq<u8>, pos: int) -> Option<Seq<DocRowV>>
    decreases s.len() - pos,
        when 0 <= pos <= s.len()
{
    if pos == s.len() {
        Some(Seq::<DocRowV>::empty())
    } else {
        match parse_doc_row(s, pos) {
            None => None,
            Some((r, p2)) => if pos < p2 <= s.len() {
                match parse_doc_rows(s, p2) {
                    None => None,
                    Some(rest) => Some(seq![r] + rest),
                }
            } else {
                None
            },
        }
    }
}

/// The whole term table.
pub open spec fn parse_term_rows(s: Seq<u8>, pos: int) -> Option<Seq<TermRowV>>
    decreases s.len() - pos,
        when 0 <= pos <= s.len()
{
    if pos == s.len() {
        Some(Seq::<TermRowV>::empty())
    } else {
        match parse_term_row(s, pos) {
            None => None,
            Some((r, p2)) => if pos < p2 <= s.len() {
                match parse_term_rows(s, p2) {
                    None => None,
                    Some(rest) => Some(seq![r] + rest),
                }
            } else {
                None
            },
        }
    }
}

// ---------------------------------------------------------------------------
// Parsing, executed
// ---------------------------------------------------------------------------

fn parse_field_exec(s: &Vec<u8>, pos: usize) -> (r: Option<(Vec<u8>, usize)>)
    requires
        pos <= s@.len(),
    ensures
        match r {
            Some((f, p2)) => parse_field(s@, pos as int) == Some((f@, p2 as int)),
            None => parse_field(s@, pos as int) is None,
        },
{
    if pos >= s.len() || s[pos] != 34 {
        return None;
    }
    let found = find_byte(s, pos + 1, 34);
    proof {
        lemma_find_idx(s@, pos + 1, 34);
    }
    match found {
        None => {
            proof {
                if find_idx(s@, pos + 1, 34) >= 0 {
                    assert(s@[find_idx(s@, pos + 1, 34)] == 34);
                }
            }
            None
        },
        Some(j) => {
            proof {
                let fj = find_idx(s@, pos + 1, 34);
                assert(fj >= 0) by {
                    if fj < 0 {
                        assert(s@[j as int] != 34);
                    }
                }
                assert(fj == j) by {
                    if fj < j {
                        assert(s@[fj] != 34);
                    }
                    if fj > j {
                        assert(s@[j as int] != 34);
                    }
                }
            }
            let mut f: Vec<u8> = Vec::new();
            let mut k: usize = pos + 1;
            while k < j
                invariant
                    pos + 1 <= k <= j,
                    j < s@.len(),
                    f@ =~= s@.subrange(pos + 1, k as int),
                decreases j - k,
            {
                f.push(s[k]);
                k += 1;
            }
            proof {
                assert(f@ =~= s@.subrange(pos + 1, j as int));
            }
            Some((f, j + 1))
        },
    }
}

fn parse_number_exec(s: &Vec<u8>, pos: usize) -> (r: Option<(u64, usize)>)
    requires
        pos <= s@.len(),
    ensures
        match r {
            Some((v, p2)) => parse_number(s@, pos as int) == Some((v, p2 as int)),
            None => parse_number(s@, pos as int) is None,
        },
{
    let mut j: usize = pos;
    while j < s.len() && s[j] >= 48 && s[j] <= 57
        invariant
            pos <= j <= s@.len(),
            digits_end(s@, pos as int) == digits_end(s@, j as int),
            forall|k: int| pos <= k < j ==> is_digit(s@[k]),
        decreases s@.len() - j,
    {
        j += 1;
    }
    proof {
        assert(digits_end(s@, j as int) == j);
        lemma_digits_end(s@, pos as int);
    }
    if j == pos {
        return None;
    }
    let mut digits: Vec<u8> = Vec::new();
    let mut k: usize = pos;
    while k < j
        invariant
            pos <= k <= j,
            j <= s@.len(),
            digits@ =~= s@.subrange(pos as int, k as int),
        decreases j - k,
    {
        digits.push(s[k]);
        k += 1;
    }
    proof {
        assert(digits@ =~= s@.subrange(pos as int, j as int));
    }
    match parse_u64(&digits) {
        Some(v) => Some((v, j)),
        None => {
            proof {
                assert(all_digits(digits@));
                assert(digits@.len() > 0);
            }
            None
        },
    }
}

fn expect_byte(s: &Vec<u8>, pos: usize, b: u8) -> (r: bool)
    ensures
        r == (pos < s@.len() && s@[pos as int] == b),
        s@.len() <= usize::MAX,
{
    pos < s.len() && s[pos] == b
}

fn parse_doc_row_exec(s: &Vec<u8>, pos: usize) -> (r: Option<(DocRow, usize)>)
    requires
        pos <= s@.len(),
    ensures
        match r {
            Some((row, p2)) => parse_doc_row(s@, pos as int) == Some((row@, p2 as int)) && pos < p2
                <= s@.len(),
            None => parse_doc_row(s@, pos as int) is None,
        },
{
    let (source, p1) = match parse_field_exec(s, pos) {
        None => {
            return None;
        },
        Some(x) => x,
    };
    proof {
        lemma_parse_field(s@, pos as int);
    }
    if !expect_byte(s, p1, 44) {
        return None;
    }
    let (title, p2) = match parse_field_exec(s, p1 + 1) {
        None => {
            return None;
        },
        Some(x) => x,
    };
    proof {
        lemma_parse_field(s@, p1 + 1);
    }
    if !expect_byte(s, p2, 44) {
        return None;
    }
    let (text, p3) = match parse_field_exec(s, p2 + 1) {
        None => {
            return None;
        },
        Some(x) => x,
    };
    proof {
        lemma_parse_field(s@, p2 + 1);
    }
    if !expect_byte(s, p3, 44) {
        return None;
    }
    let (id, p4) = match parse_field_exec(s, p3 + 1) {
        None => {
            return None;
        },
        Some(x) => x,
    };
    proof {
        lemma_parse_field(s@, p3 + 1);
    }
    if !expect_byte(s, p4, 44) {
        return None;
    }
    let (lenf, p5) = match parse_field_exec(s, p4 + 1) {
        None => {
            return None;
        },
        Some(x) => x,
    };
    proof {
        lemma_parse_field(s@, p4 + 1);
    }
    let length = match parse_u64(&lenf) {
        None => {
            return None;
        },
        Some(v) => v,
    };
    if !expect_byte(s, p5, 10) {
        return None;
    }
    Some((DocRow { source, title, text, id, length }, p5 + 1))
}

fn parse_term_row_exec(s: &Vec<u8>, pos: usize) -> (r: Option<(TermRow, usize)>)
    requires
        pos <= s@.len(),
    ensures
        match r {
            Some((row, p2)) => parse_term_row(s@, pos as int) == Some((row@, p2 as int)) && pos < p2
                <= s@.len(),
            None => parse_term_row(s@, pos as int) is None,
        },
{
    let (id, p1) = match parse_field_exec(s, pos) {
        None => {
            return None;
        },
        Some(x) => x,
    };
    proof {
        lemma_parse_field(s@, pos as int);
    }
    if !expect_byte(s, p1, 44) {
        return None;
    }
    let (term, p2) = match parse_field_exec(s, p1 + 1) {
        None => {
            return None;
        },
        Some(x) => x,
    };
    proof {
        lemma_parse_field(s@, p1 + 1);
    }
    if !expect_byte(s, p2, 44) {
        return None;
    }
    let (count, p3) = match parse_number_exec(s, p2 + 1) {
        None => {
            return None;
        },
        Some(x) => x,
    };
    proof {
        lemma_digits_end(s@, p2 + 1);
    }
    if !expect_byte(s, p3, 44) {
        return None;
    }
    let (df, p4) = match parse_number_exec(s, p3 + 1) {
        None => {
            return None;
        },
        Some(x) => x,
    };
    proof {
        lemma_digits_end(s@, p3 + 1);
    }
    if !expect_byte(s, p4, 10) {
        return None;
    }
    Some((TermRow { id, term, count, df }, p4 + 1))
}

/// Parse a whole document table; `None` when any row is malformed or
/// trailing bytes remain.
pub fn parse_doc_table(s: &Vec<u8>) -> (r: Option<Vec<DocRow>>)
    ensures
        match r {
            Some(rows) => parse_doc_rows(s@, 0) == Some(drviews(rows@)),
            None => parse_doc_rows(s@, 0) is None,
        },
{
    let mut rows: Vec<DocRow> = Vec::new();
    let mut pos: usize = 0;
    loop
        invariant
            pos <= s@.len(),
            ({
                let whole = parse_doc_rows(s@, 0);
                let rest = parse_doc_rows(s@, pos as int);
                match rest {
                    None => whole is None,
                    Some(tail) => whole == Some(drviews(rows@) + tail),
                }
            }),
        decreases s@.len() - pos,
    {
        if pos == s.len() {
            proof {
                assert(drviews(rows@) + Seq::<DocRowV>::empty() =~= drviews(rows@));
            }
            return Some(rows);
        }
        let ghost rowsv = drviews(rows@);
        match parse_doc_row_exec(s, pos) {
            None => {
                return None;
            },
            Some((row, p2)) => {
                rows.push(row);
                proof {
                    assert(drviews(rows@) =~= rowsv.push(row@));
                    match parse_doc_rows(s@, p2 as int) {
                        None => {},
                        Some(tail) => {
                            assert(rowsv + (seq![row@] + tail) =~= drviews(rows@) + tail);
                        },
                    }
                }
                pos = p2;
            },
        }
    }
}

/// Parse a whole term table.
pub fn parse_term_table(s: &Vec<u8>) -> (r: Option<Vec<TermRow>>)
    ensures
        match r {
            Some(rows) => parse_term_rows(s@, 0) == Some(trviews(rows@)),
            None => parse_term_rows(s@, 0) is None,
        },
{
    let mut rows: Vec<TermRow> = Vec::new();
    let mut pos: usize = 0;
    loop
        invariant
            pos <= s@.len(),
            ({
                let whole = parse_term_rows(s@, 0);
                let rest = parse_term_rows(s@, pos as int);
                match rest {
                    None => whole is None,
                    Some(tail) => whole == Some(trviews(rows@) + tail),
                }
            }),
        decreases s@.len() - pos,
    {
        if pos == s.len() {
            proof {
                assert(trviews(rows@) + Seq::<TermRowV>::empty() =~= trviews(rows@));
            }
            return Some(rows);
        }
        let ghost rowsv = trviews(rows@);
        match parse_term_row_exec(s, pos) {
            None => {
                return None;
            },
            Some((row, p2)) => {
                rows.push(row);
                proof {
                    assert(trviews(rows@) =~= rowsv.push(row@));
                    match parse_term_rows(s@, p2 as int) {
                        None => {},
                        Some(tail) => {
                            assert(rowsv + (seq![row@] + tail) =~= trviews(rows@) + tail);
                        },
                    }
                }
                pos = p2;
            },
        }
    }
}

// ---------------------------------------------------------------------------
// Encoding
// ---------------------------------------------------------------------------

pub open spec fn quoted(f: Seq<u8>) -> Seq<u8> {
    quote_mark() + f + quote_mark()
}

/// One stored document row: all five columns quoted, newline-terminated.
pub open spec fn doc_row_spec(id: Seq<u8>, d: DocView) -> Seq<u8> {
    quoted(d.source) + seq![44u8] + quoted(d.title) + seq![44u8] + quoted(d.text) + seq![44u8]
        + quoted(id) + seq![44u8] + quoted(dec_spec(d.length as nat)) + seq![10u8]
}

/// The document table: one row per document, in table order.
pub open spec fn doc_table_spec(docs: Seq<(Vec<u8>, Document)>) -> Seq<u8>
    decreases docs.len(),
{
    if docs.len() == 0 {
        Seq::<u8>::empty()
    } else {
        doc_row_spec(docs[0].0@, docs[0].1@) + doc_table_spec(docs.drop_first())
    }
}

/// One stored term row: id and term quoted, the two counts bare.
pub open spec fn term_row_spec(id: Seq<u8>, term: Seq<u8>, count: u64, df: u64) -> Seq<u8> {
    quoted(id) + seq![44u8] + quoted(term) + seq![44u8] + dec_spec(count as nat) + seq![44u8]
        + dec_spec(df as nat) + seq![10u8]
}

/// The document frequency a term is stored with: the corpus-wide entry,
/// or zero for a term the corpus table does not carry.
pub open spec fn df_of(tmap: Map<Seq<u8>, u64>, term: Seq<u8>) -> u64 {
    if tmap.contains_key(term) {
        tmap[term]
    } else {
        0u64
    }
}

/// The term rows of one document, in its table order.
pub open spec fn doc_term_rows_spec(
    id: Seq<u8>,
    terms: Seq<(Vec<u8>, u64)>,
    tmap: Map<Seq<u8>, u64>,
) -> Seq<u8>
    decreases terms.len(),
{
    if terms.len() == 0 {
        Seq::<u8>::empty()
    } else {
        term_row_spec(id, terms[0].0@, terms[0].1, df_of(tmap, terms[0].0@)) + doc_term_rows_spec(
            id,
            terms.drop_first(),
            tmap,
        )
    }
}

/// The term table: every document's term rows, in table order.
pub open spec fn term_table_spec(
    docs: Seq<(Vec<u8>, Document)>,
    tmap: Map<Seq<u8>, u64>,
) -> Seq<u8>
    decreases docs.len(),
{
    if docs.len() == 0 {
        Seq::<u8>::empty()
    } else {
        doc_term_rows_spec(docs[0].0@, docs[0].1.terms@, tmap) + term_table_spec(
            docs.drop_first(),
            tmap,
        )
    }
}

fn push_quoted(out: &mut Vec<u8>, f: &Vec<u8>)
    ensures
        final(out)@ == old(out)@ + quoted(f@),
{
    let ghost prev = out@;
    out.push(34);
    push_all(out, f);
    out.push(34);
    proof {
        assert(out@ =~= prev + quoted(f@));
    }
}

/// Write the document table of a corpus.
pub fn encode_documents(c: &Corpus) -> (out: Vec<u8>)
    ensures
        out@ == doc_table_spec(c.documents@),
{
    let mut out: Vec<u8> = Vec::new();
    let mut i: usize = 0;
    proof {
        assert(c.documents@.skip(0) =~= c.documents@);
    }
    while i < c.documents.len()
        invariant
            i <= c.documents@.len(),
            doc_table_spec(c.documents@) == out@ + doc_table_spec(c.documents@.skip(i as int)),
        decreases c.documents@.len() - i,
    {
        let ghost rest = c.documents@.skip(i as int);
        let ghost prev = out@;
        push_quoted(&mut out, &c.documents[i].1.source);
        out.push(44);
        push_quoted(&mut out, &c.documents[i].1.title);
        out.push(44);
        push_quoted(&mut out, &c.documents[i].1.text);
        out.push(44);
        push_quoted(&mut out, &c.documents[i].0);
        out.push(44);
        let lend = u64_to_dec(c.documents[i].1.length);
        push_quoted(&mut out, &lend);
        out.push(10);
        proof {
            assert(rest[0] == c.documents@[i as int]);
            assert(rest.drop_first() =~= c.documents@.skip(i + 1));
            assert(out@ =~= prev + doc_row_spec(rest[0].0@, rest[0].1@));
            assert(doc_table_spec(rest) == doc_row_spec(rest[0].0@, rest[0].1@) + doc_table_spec(
                c.documents@.skip(i + 1),
            ));
            assert(prev + doc_table_spec(rest) =~= out@ + doc_table_spec(c.documents@.skip(i + 1)));
        }
        i += 1;
    }
    proof {
        assert(c.documents@.skip(c.documents@.len() as int)
            =~= Seq::<(Vec<u8>, Document)>::empty());
        assert(out@ + Seq::<u8>::empty() =~= out@);
    }
    out
}

/// Write the term table of a corpus.
pub fn encode_index(c: &Corpus) -> (out: Vec<u8>)
    requires
        c.inv(),
    ensures
        out@ == term_table_spec(c.documents@, amap(c.terms@)),
{
    let ghost tmap = amap(c.terms@);
    let mut out: Vec<u8> = Vec::new();
    let mut i: usize = 0;
    proof {
        assert(c.documents@.skip(0) =~= c.documents@);
    }
    while i < c.documents.len()
        invariant
            i <= c.documents@.len(),
            c.inv(),
            tmap == amap(c.terms@),
            term_table_spec(c.documents@, tmap) == out@ + term_table_spec(
                c.documents@.skip(i as int),
                tmap,
            ),
        decreases c.documents@.len() - i,
    {
        let ghost rest = c.documents@.skip(i as int);
        let ghost outer_prev = out@;
        let terms_n = c.documents[i].1.terms.len();
        let mut j: usize = 0;
        proof {
            assert(rest[0] == c.documents@[i as int]);
            assert(rest.drop_first() =~= c.documents@.skip(i + 1));
            assert(c.documents@[i as int].1.terms@.skip(0) =~= c.documents@[i as int].1.terms@);
        }
        while j < terms_n
            invariant
                j <= terms_n,
                i < c.documents@.len(),
                c.inv(),
                tmap == amap(c.terms@),
                terms_n == c.documents@[i as int].1.terms@.len(),
                doc_term_rows_spec(c.documents@[i as int].0@, c.documents@[i as int].1.terms@, tmap)
                    == out@.skip(outer_prev.len() as int) + doc_term_rows_spec(
                    c.documents@[i as int].0@,
                    c.documents@[i as int].1.terms@.skip(j as int),
                    tmap,
                ),
                outer_prev.len() <= out@.len(),
                out@.take(outer_prev.len() as int) == outer_prev,
            decreases terms_n - j,
        {
            let ghost trest = c.documents@[i as int].1.terms@.skip(j as int);
            let ghost prev = out@;
            push_quoted(&mut out, &c.documents[i].0);
            out.push(44);
            push_quoted(&mut out, &c.documents[i].1.terms[j].0);
            out.push(44);
            let cd = u64_to_dec(c.documents[i].1.terms[j].1);
            push_all(&mut out, &cd);
            out.push(44);
            let dfv = match table_get(&c.terms, &c.documents[i].1.terms[j].0) {
                Some(v) => v,
                None => 0,
            };
            let dfd = u64_to_dec(dfv);
            push_all(&mut out, &dfd);
            out.push(10);
            proof {
                let id = c.documents@[i as int].0@;
                let terms = c.documents@[i as int].1.terms@;
                assert(trest[0] == terms[j as int]);
                assert(trest.drop_first() =~= terms.skip(j + 1));
                assert(dfv == df_of(tmap, terms[j as int].0@));
                assert(out@ =~= prev + term_row_spec(
                    id,
                    terms[j as int].0@,
                    terms[j as int].1,
                    df_of(tmap, terms[j as int].0@),
                ));
                assert(doc_term_rows_spec(id, trest, tmap) == term_row_spec(
                    id,
                    terms[j as int].0@,
                    terms[j as int].1,
                    df_of(tmap, terms[j as int].0@),
                ) + doc_term_rows_spec(id, terms.skip(j + 1), tmap));
                assert(prev.skip(outer_prev.len() as int) + doc_term_rows_spec(id, trest, tmap)
                    =~= out@.skip(outer_prev.len() as int) + doc_term_rows_spec(
                    id,
                    terms.skip(j + 1),
                    tmap,
                ));
                assert(out@.take(outer_prev.len() as int) =~= outer_prev);
            }
            j += 1;
        }
        proof {
            let id = c.documents@[i as int].0@;
            let terms = c.documents@[i as int].1.terms@;
            assert(terms.skip(terms.len() as int) =~= Seq::<(Vec<u8>, u64)>::empty());
            assert(out@.skip(outer_prev.len() as int) + Seq::<u8>::empty() =~= out@.skip(
                outer_prev.len() as int,
            ));
            assert(out@ =~= outer_prev + out@.skip(outer_prev.len() as int));
            assert(out@ =~= outer_prev + doc_term_rows_spec(id, terms, tmap));
            assert(term_table_spec(rest, tmap) == doc_term_rows_spec(id, terms, tmap)
                + term_table_spec(c.documents@.skip(i + 1), tmap));
            assert(outer_prev + term_table_spec(rest, tmap) =~= out@ + term_table_spec(
                c.documents@.skip(i + 1),
                tmap,
            ));
        }
        i += 1;
    }
    proof {
        assert(c.documents@.skip(c.documents@.len() as int)
            =~= Seq::<(Vec<u8>, Document)>::empty());
        assert(out@ + Seq::<u8>::empty() =~= out@);
    }
    out
}

// ---------------------------------------------------------------------------
// Loading
// ---------------------------------------------------------------------------

#[derive(Debug)]
pub enum StoreError {
    /// The document table did not parse.
    BadDocumentTable,
    /// The term table did not parse.
    BadTermTable,
}

/// The term map a document with this id collects from the term rows:
/// every row carrying the id contributes its (term, count) pair, later
/// rows winning.
pub open spec fn attach_terms(trows: Seq<TermRowV>, id: Seq<u8>) -> Map<Seq<u8>, u64>
    decreases trows.len(),
{
    if trows.len() == 0 {
        Map::<Seq<u8>, u64>::empty()
    } else {
        let m = attach_terms(trows.drop_last(), id);
        if trows.last().id == id {
            m.insert(trows.last().term, trows.last().count)
        } else {
            m
        }
    }
}

/// The document a stored row denotes, its terms attached from the term
/// rows. The body stays in internal markup, exactly as stored.
pub open spec fn docview_of_row(r: DocRowV, trows: Seq<TermRowV>) -> DocView {
    DocView {
        title: r.title,
        source: r.source,
        text: r.text,
        terms: attach_terms(trows, r.id),
        length: r.length,
    }
}

/// The document map a loaded store denotes: row order, later rows with
/// the same id winning.
pub open spec fn loaded_docs(drows: Seq<DocRowV>, trows: Seq<TermRowV>) -> Map<Seq<u8>, DocView>
    decreases drows.len(),
{
    if drows.len() == 0 {
        Map::<Seq<u8>, DocView>::empty()
    } else {
        loaded_docs(drows.drop_last(), trows).insert(
            drows.last().id,
            docview_of_row(drows.last(), trows),
        )
    }
}

/// The corpus-wide term map a loaded store denotes: rows whose id no
/// document carries are skipped silently.
pub open spec fn loaded_terms(
    trows: Seq<TermRowV>,
    docs: Map<Seq<u8>, DocView>,
) -> Map<Seq<u8>, u64>
    decreases trows.len(),
{
    if trows.len() == 0 {
        Map::<Seq<u8>, u64>::empty()
    } else {
        let m = loaded_terms(trows.drop_last(), docs);
        if docs.contains_key(trows.last().id) {
            m.insert(trows.last().term, trows.last().df)
        } else {
            m
        }
    }
}

/// Every field of a parsed document row is free of raw quotes.
pub proof fn lemma_doc_rows_free(s: Seq<u8>, pos: int)
    requires
        0 <= pos <= s.len(),
        parse_doc_rows(s, pos) is Some,
    ensures
        forall|x: int|
            0 <= x < parse_doc_rows(s, pos)->Some_0.len() ==> {
                let r = #[trigger] parse_doc_rows(s, pos)->Some_0[x];
                free_of(r.source, 34) && free_of(r.title, 34) && free_of(r.text, 34) && free_of(
                    r.id,
                    34,
                )
            },
    decreases s.len() - pos,
{
    if pos == s.len() {
    } else {
        let (r, p2) = parse_doc_row(s, pos)->Some_0;
        let (source, p_1) = parse_field(s, pos)->Some_0;
        lemma_parse_field(s, pos);
        let (title, p_2) = parse_field(s, p_1 + 1)->Some_0;
        lemma_parse_field(s, p_1 + 1);
        let (text, p_3) = parse_field(s, p_2 + 1)->Some_0;
        lemma_parse_field(s, p_2 + 1);
        let (id, p_4) = parse_field(s, p_3 + 1)->Some_0;
        lemma_parse_field(s, p_3 + 1);
        lemma_doc_rows_free(s, p2);
        let rows = parse_doc_rows(s, pos)->Some_0;
        let rest = parse_doc_rows(s, p2)->Some_0;
        assert(rows == seq![r] + rest);
        assert forall|x: int| 0 <= x < rows.len() implies {
            let rr = #[trigger] rows[x];
            free_of(rr.source, 34) && free_of(rr.title, 34) && free_of(rr.text, 34) && free_of(
                rr.id,
                34,
            )
        } by {
            if x > 0 {
                assert(rows[x] == rest[x - 1]);
            } else {
                assert(rows[0] == r);
            }
        }
    }
}

/// Every id and term of a parsed term row is free of raw quotes.
pub proof fn lemma_term_rows_free(s: Seq<u8>, pos: int)
    requires
        0 <= pos <= s.len(),
        parse_term_rows(s, pos) is Some,
    ensures
        forall|x: int|
            0 <= x < parse_term_rows(s, pos)->Some_0.len() ==> {
                let r = #[trigger] parse_term_rows(s, pos)->Some_0[x];
                free_of(r.id, 34) && free_of(r.term, 34)
            },
    decreases s.len() - pos,
{
    if pos == s.len() {
    } else {
        let (r, p2) = parse_term_row(s, pos)->Some_0;
        let (id, p_1) = parse_field(s, pos)->Some_0;
        lemma_parse_field(s, pos);
        let (term, p_2) = parse_field(s, p_1 + 1)->Some_0;
        lemma_parse_field(s, p_1 + 1);
        lemma_term_rows_free(s, p2);
        let rows = parse_term_rows(s, pos)->Some_0;
        let rest = parse_term_rows(s, p2)->Some_0;
        assert(rows == seq![r] + rest);
        assert forall|x: int| 0 <= x < rows.len() implies {
            let rr = #[trigger] rows[x];
            free_of(rr.id, 34) && free_of(rr.term, 34)
        } by {
            if x > 0 {
                assert(rows[x] == rest[x - 1]);
            } else {
                assert(rows[0] == r);
            }
        }
    }
}

/// Load a corpus from the two stored tables. The document table is read
/// first; term rows then attach term counts to the document carrying
/// their id, rows with an unknown id being skipped silently.
pub fn load_corpus(corpus_bytes: &Vec<u8>, index_bytes: &Vec<u8>) -> (r: Result<
    Corpus,
    StoreError,
>)
    ensures
        r is Ok <==> (parse_doc_rows(corpus_bytes@, 0) is Some && parse_term_rows(index_bytes@, 0)
            is Some),
        r matches Err(e) ==> (e is BadDocumentTable <==> parse_doc_rows(corpus_bytes@, 0)
            is None),
        r matches Ok(c) ==> ({
            let drows = parse_doc_rows(corpus_bytes@, 0)->Some_0;
            let trows = parse_term_rows(index_bytes@, 0)->Some_0;
            &&& c@.documents == loaded_docs(drows, trows)
            &&& c@.terms == loaded_terms(trows, loaded_docs(drows, trows))
            &&& c.inv()
        }),
{
    let rows = match parse_doc_table(corpus_bytes) {
        None => {
            return Err(StoreError::BadDocumentTable);
        },
        Some(x) => x,
    };
    let trows = match parse_term_table(index_bytes) {
        None => {
            return Err(StoreError::BadTermTable);
        },
        Some(x) => x,
    };
    let ghost drowsv = drviews(rows@);
    let ghost trowsv = trviews(trows@);
    proof {
        lemma_doc_rows_free(corpus_bytes@, 0);
        lemma_term_rows_free(index_bytes@, 0);
        assert(drowsv == parse_doc_rows(corpus_bytes@, 0)->Some_0);
        assert(trowsv == parse_term_rows(index_bytes@, 0)->Some_0);
        assert forall|x: int| 0 <= x < drowsv.len() implies {
            let r = #[trigger] drowsv[x];
            free_of(r.source, 34) && free_of(r.title, 34) && free_of(r.text, 34) && free_of(
                r.id,
                34,
            )
        } by {
            assert(drowsv[x] == parse_doc_rows(corpus_bytes@, 0)->Some_0[x]);
        }
        assert forall|x: int| 0 <= x < trowsv.len() implies {
            let r = #[trigger] trowsv[x];
            free_of(r.id, 34) && free_of(r.term, 34)
        } by {
            assert(trowsv[x] == parse_term_rows(index_bytes@, 0)->Some_0[x]);
        }
    }
    let mut c = Corpus::new();
    let mut i: usize = 0;
    proof {
        assert(drowsv.take(0) =~= Seq::<DocRowV>::empty());
        assert(dmap(c.documents@) =~= loaded_docs(drowsv.take(0), trowsv));
    }
    while i < rows.len()
        invariant
            i <= rows@.len(),
            drowsv == drviews(rows@),
            trowsv == trviews(trows@),
            forall|x: int|
                0 <= x < drowsv.len() ==> {
                    let r = #[trigger] drowsv[x];
                    free_of(r.source, 34) && free_of(r.title, 34) && free_of(r.text, 34)
                        && free_of(r.id, 34)
                },
            forall|x: int|
                0 <= x < trowsv.len() ==> {
                    let r = #[trigger] trowsv[x];
                    free_of(r.id, 34) && free_of(r.term, 34)
                },
            c.inv(),
            c.terms@.len() == 0,
            dmap(c.documents@) == loaded_docs(drowsv.take(i as int), trowsv),
        decreases rows@.len() - i,
    {
        let mut t: Vec<(Vec<u8>, u64)> = Vec::new();
        let mut j: usize = 0;
        proof {
            assert(trowsv.take(0) =~= Seq::<TermRowV>::empty());
            assert(amap(t@) =~= attach_terms(trowsv.take(0), drowsv[i as int].id));
        }
        while j < trows.len()
            invariant
                j <= trows@.len(),
                i < rows@.len(),
                drowsv == drviews(rows@),
                trowsv == trviews(trows@),
                forall|x: int|
                    0 <= x < trowsv.len() ==> {
                        let r = #[trigger] trowsv[x];
                        free_of(r.id, 34) && free_of(r.term, 34)
                    },
                unique_keys(t@),
                forall|x: int| 0 <= x < t@.len() ==> free_of(#[trigger] t@[x].0@, 34),
                amap(t@) == attach_terms(trowsv.take(j as int), drowsv[i as int].id),
            decreases trows@.len() - j,
        {
            let ghost prev_t = t@;
            if crate::bytes::bytes_eq(&trows[j].id, &rows[i].id) {
                table_set(&mut t, &trows[j].term, trows[j].count);
                proof {
                    assert forall|x: int| 0 <= x < t@.len() implies free_of(
                        #[trigger] t@[x].0@,
                        34,
                    ) by {
                        assert(akeys(t@)[x] == t@[x].0@);
                        if amap(prev_t).contains_key(trowsv[j as int].term) {
                            assert(akeys(t@) == akeys(prev_t));
                            assert(akeys(prev_t).len() == prev_t.len());
                            assert(akeys(prev_t)[x] == prev_t[x].0@);
                        } else {
                            assert(akeys(t@) == akeys(prev_t).push(trowsv[j as int].term));
                            assert(akeys(prev_t).len() == prev_t.len());
                            assert(akeys(t@).len() == t@.len());
                            if x < prev_t.len() {
                                assert(akeys(prev_t)[x] == prev_t[x].0@);
                            } else {
                                assert(x == prev_t.len());
                            }
                        }
                    }
                }
            }
            proof {
                assert(trowsv.take(j + 1).drop_last() =~= trowsv.take(j as int));
                assert(trowsv.take(j + 1).last() == trowsv[j as int]);
                assert(amap(t@) == attach_terms(trowsv.take(j + 1), drowsv[i as int].id));
            }
            j += 1;
        }
        proof {
            assert(trowsv.take(trowsv.len() as int) =~= trowsv);
        }
        let d = Document {
            title: dup(&rows[i].title),
            source: dup(&rows[i].source),
            text: dup(&rows[i].text),
            terms: t,
            length: rows[i].length,
        };
        let id = dup(&rows[i].id);
        proof {
            assert(d.inv());
            assert(d@ == docview_of_row(drowsv[i as int], trowsv));
        }
        c.put_document(id, d);
        proof {
            assert(drowsv.take(i + 1).drop_last() =~= drowsv.take(i as int));
            assert(drowsv.take(i + 1).last() == drowsv[i as int]);
            assert(dmap(c.documents@) == loaded_docs(drowsv.take(i + 1), trowsv));
        }
        i += 1;
    }
    proof {
        assert(drowsv.take(drowsv.len() as int) =~= drowsv);
    }
    let ghost docsmap = dmap(c.documents@);
    let mut j: usize = 0;
    proof {
        assert(trowsv.take(0) =~= Seq::<TermRowV>::empty());
        assert(amap(c.terms@) =~= loaded_terms(trowsv.take(0), docsmap));
    }
    while j < trows.len()
        invariant
            j <= trows@.len(),
            trowsv == trviews(trows@),
            forall|x: int|
                0 <= x < trowsv.len() ==> {
                    let r = #[trigger] trowsv[x];
                    free_of(r.id, 34) && free_of(r.term, 34)
                },
            c.inv(),
            docsmap == dmap(c.documents@),
            amap(c.terms@) == loaded_terms(trowsv.take(j as int), docsmap),
        decreases trows@.len() - j,
    {
        let ghost prev_t = c.terms@;
        let known = c.contains_doc(&trows[j].id);
        if known {
            table_set(&mut c.terms, &trows[j].term, trows[j].df);
            proof {
                assert forall|x: int| 0 <= x < c.terms@.len() implies free_of(
                    #[trigger] c.terms@[x].0@,
                    34,
                ) by {
                    assert(akeys(c.terms@)[x] == c.terms@[x].0@);
                    if amap(prev_t).contains_key(trowsv[j as int].term) {
                        assert(akeys(c.terms@) == akeys(prev_t));
                        assert(akeys(prev_t).len() == prev_t.len());
                        assert(akeys(prev_t)[x] == prev_t[x].0@);
                    } else {
                        assert(akeys(c.terms@) == akeys(prev_t).push(trowsv[j as int].term));
                        assert(akeys(prev_t).len() == prev_t.len());
                        assert(akeys(c.terms@).len() == c.terms@.len());
                        if x < prev_t.len() {
                            assert(akeys(prev_t)[x] == prev_t[x].0@);
                        } else {
                            assert(x == prev_t.len());
                        }
                    }
                }
            }
        }
        proof {
            assert(trowsv.take(j + 1).drop_last() =~= trowsv.take(j as int));
            assert(trowsv.take(j + 1).last() == trowsv[j as int]);
            assert(amap(c.terms@) == loaded_terms(trowsv.take(j + 1), docsmap));
        }
        j += 1;
    }
    proof {
        assert(trowsv.take(trowsv.len() as int) =~= trowsv);
    }
    Ok(c)
}

// ---------------------------------------------------------------------------
// Round trip
// ---------------------------------------------------------------------------

/// The rows the document table of a corpus denotes.
pub open spec fn doc_rows_of(docs: Seq<(Vec<u8>, Document)>) -> Seq<DocRowV> {
    docs.map_values(
        |p: (Vec<u8>, Document)|
            DocRowV {
                source: p.1.source@,
                title: p.1.title@,
                text: p.1.text@,
                id: p.0@,
                length: p.1.length,
            },
    )
}

/// The rows of one document's stretch of the term table.
pub open spec fn term_rows_of_doc(
    id: Seq<u8>,
    terms: Seq<(Vec<u8>, u64)>,
    tmap: Map<Seq<u8>, u64>,
) -> Seq<TermRowV> {
    terms.map_values(
        |p: (Vec<u8>, u64)|
            TermRowV { id: id, term: p.0@, count: p.1, df: df_of(tmap, p.0@) },
    )
}

/// The rows the term table of a corpus denotes, in table order.
pub open spec fn term_rows_of(docs: Seq<(Vec<u8>, Document)>, tmap: Map<Seq<u8>, u64>) -> Seq<
    TermRowV,
>
    decreases docs.len(),
{
    if docs.len() == 0 {
        Seq::<TermRowV>::empty()
    } else {
        term_rows_of_doc(docs[0].0@, docs[0].1.terms@, tmap) + term_rows_of(
            docs.drop_first(),
            tmap,
        )
    }
}


/// Lifting a subrange equality: the bytes of `row` at `off` are `f`, so
/// the bytes of `s` at `pos + off` are too.
proof fn lemma_sub_eq(s: Seq<u8>, pos: int, row: Seq<u8>, off: int, f: Seq<u8>)
    requires
        0 <= pos,
        pos + row.len() <= s.len(),
        s.subrange(pos, pos + row.len() as int) == row,
        0 <= off,
        off + f.len() <= row.len(),
        row.subrange(off, off + f.len() as int) == f,
    ensures
        s.subrange(pos + off, pos + off + f.len() as int) == f,
{
    let sub = s.subrange(pos + off, pos + off + f.len() as int);
    assert forall|m: int| 0 <= m < f.len() implies sub[m] == f[m] by {
        assert(s.subrange(pos, pos + row.len() as int)[off + m] == row[off + m]);
        assert(row.subrange(off, off + f.len() as int)[m] == f[m]);
    }
    assert(sub =~= f);
}

/// One byte of `row` at `off` read through `s`.
proof fn lemma_sub_byte(s: Seq<u8>, pos: int, row: Seq<u8>, off: int)
    requires
        0 <= pos,
        pos + row.len() <= s.len(),
        s.subrange(pos, pos + row.len() as int) == row,
        0 <= off < row.len(),
    ensures
        s[pos + off] == row[off],
{
    assert(s.subrange(pos, pos + row.len() as int)[off] == row[off]);
}

proof fn lemma_find_at(s: Seq<u8>, pos: int, j: int, b: u8)
    requires
        0 <= pos <= j < s.len(),
        s[j] == b,
        forall|k: int| pos <= k < j ==> s[k] != b,
    ensures
        find_idx(s, pos, b) == j,
    decreases j - pos,
{
    if pos < j {
        lemma_find_at(s, pos + 1, j, b);
    }
}

/// Parsing a quoted quote-free field laid down at `pos` yields exactly
/// that field.
proof fn lemma_field_at(s: Seq<u8>, pos: int, f: Seq<u8>)
    requires
        0 <= pos,
        pos + f.len() + 2 <= s.len(),
        s[pos] == 34,
        s[pos + 1 + f.len()] == 34,
        s.subrange(pos + 1, pos + 1 + f.len() as int) == f,
        free_of(f, 34),
    ensures
        parse_field(s, pos) == Some((f, pos + f.len() + 2)),
{
    assert(forall|k: int|
        pos + 1 <= k < pos + 1 + f.len() ==> s[k] == f[k - pos - 1]);
    lemma_find_at(s, pos + 1, pos + 1 + f.len() as int, 34);
}

proof fn lemma_digits_at(s: Seq<u8>, pos: int, ds: Seq<u8>)
    requires
        0 <= pos,
        pos + ds.len() < s.len(),
        ds.len() > 0,
        all_digits(ds),
        s.subrange(pos, pos + ds.len() as int) == ds,
        !is_digit(s[pos + ds.len()]),
    ensures
        digits_end(s, pos) == pos + ds.len(),
{
    assert(forall|k: int| pos <= k < pos + ds.len() ==> s[k] == ds[k - pos]);
    lemma_digits_run(s, pos, pos + ds.len() as int);
}

proof fn lemma_digits_run(s: Seq<u8>, pos: int, stop: int)
    requires
        0 <= pos <= stop < s.len(),
        forall|k: int| pos <= k < stop ==> is_digit(s[k]),
        !is_digit(s[stop]),
    ensures
        digits_end(s, pos) == stop,
    decreases stop - pos,
{
    if pos < stop {
        lemma_digits_run(s, pos + 1, stop);
    }
}

/// The decimal rendering of a number reads back as that number.
pub proof fn lemma_dec_roundtrip(n: nat)
    ensures
        dec_spec(n).len() >= 1,
        all_digits(dec_spec(n)),
        dec_val(dec_spec(n)) == n,
    decreases n,
{
    if n < 10 {
        assert(dec_spec(n) =~= seq![(48 + n) as u8]);
        assert(dec_spec(n).drop_last() =~= Seq::<u8>::empty());
        assert(dec_val(Seq::<u8>::empty()) == 0);
        assert(dec_spec(n).last() == (48 + n) as u8);
    } else {
        lemma_dec_roundtrip(n / 10);
        let x = dec_spec(n / 10);
        let d = (48 + n % 10) as u8;
        assert(dec_spec(n) == x + seq![d]);
        assert((x + seq![d]).drop_last() =~= x);
        assert((x + seq![d]).last() == d);
        assert(dec_val(x + seq![d]) == dec_val(x) * 10 + (d - 48) as nat);
        assert(forall|k: int|
            0 <= k < (x + seq![d]).len() ==> is_digit(#[trigger] (x + seq![d])[k]));
    }
}

/// A document row written at `pos` parses back to its fields.
proof fn lemma_doc_row_at(s: Seq<u8>, pos: int, id: Seq<u8>, d: DocView)
    requires
        0 <= pos,
        pos + doc_row_spec(id, d).len() <= s.len(),
        s.subrange(pos, pos + doc_row_spec(id, d).len() as int) == doc_row_spec(id, d),
        free_of(d.source, 34),
        free_of(d.title, 34),
        free_of(d.text, 34),
        free_of(id, 34),
    ensures
        parse_doc_row(s, pos) == Some(
            (
                DocRowV { source: d.source, title: d.title, text: d.text, id: id, length: d.length },
                pos + doc_row_spec(id, d).len(),
            ),
        ),
{
    let row = doc_row_spec(id, d);
    let lend = dec_spec(d.length as nat);
    lemma_dec_roundtrip(d.length as nat);
    let o1 = 0int;
    let o2 = o1 + d.source.len() + 3;
    let o3 = o2 + d.title.len() + 3;
    let o4 = o3 + d.text.len() + 3;
    let o5 = o4 + id.len() + 3;
    assert(free_of(lend, 34)) by {
        assert(forall|k: int| 0 <= k < lend.len() ==> is_digit(#[trigger] lend[k]));
    }
    assert(row.subrange(o1 + 1, o1 + 1 + d.source.len() as int) =~= d.source);
    assert(row.subrange(o2 + 1, o2 + 1 + d.title.len() as int) =~= d.title);
    assert(row.subrange(o3 + 1, o3 + 1 + d.text.len() as int) =~= d.text);
    assert(row.subrange(o4 + 1, o4 + 1 + id.len() as int) =~= id);
    assert(row.subrange(o5 + 1, o5 + 1 + lend.len() as int) =~= lend);
    lemma_sub_eq(s, pos, row, o1 + 1, d.source);
    lemma_sub_eq(s, pos, row, o2 + 1, d.title);
    lemma_sub_eq(s, pos, row, o3 + 1, d.text);
    lemma_sub_eq(s, pos, row, o4 + 1, id);
    lemma_sub_eq(s, pos, row, o5 + 1, lend);
    lemma_sub_byte(s, pos, row, o1);
    lemma_sub_byte(s, pos, row, o1 + 1 + d.source.len());
    lemma_sub_byte(s, pos, row, o2 - 1);
    lemma_sub_byte(s, pos, row, o2);
    lemma_sub_byte(s, pos, row, o2 + 1 + d.title.len());
    lemma_sub_byte(s, pos, row, o3 - 1);
    lemma_sub_byte(s, pos, row, o3);
    lemma_sub_byte(s, pos, row, o3 + 1 + d.text.len());
    lemma_sub_byte(s, pos, row, o4 - 1);
    lemma_sub_byte(s, pos, row, o4);
    lemma_sub_byte(s, pos, row, o4 + 1 + id.len());
    lemma_sub_byte(s, pos, row, o5 - 1);
    lemma_sub_byte(s, pos, row, o5);
    lemma_sub_byte(s, pos, row, o5 + 1 + lend.len());
    lemma_sub_byte(s, pos, row, o5 + lend.len() + 2);
    assert(row[o1] == 34 && row[o1 + 1 + d.source.len()] == 34);
    lemma_field_at(s, pos + o1, d.source);
    assert(row[o2 - 1] == 44);
    assert(row[o2] == 34 && row[o2 + 1 + d.title.len()] == 34);
    lemma_field_at(s, pos + o2, d.title);
    assert(row[o3 - 1] == 44);
    assert(row[o3] == 34 && row[o3 + 1 + d.text.len()] == 34);
    lemma_field_at(s, pos + o3, d.text);
    assert(row[o4 - 1] == 44);
    assert(row[o4] == 34 && row[o4 + 1 + id.len()] == 34);
    lemma_field_at(s, pos + o4, id);
    assert(row[o5 - 1] == 44);
    assert(row[o5] == 34 && row[o5 + 1 + lend.len()] == 34);
    lemma_field_at(s, pos + o5, lend);
    assert(row[o5 + lend.len() + 2] == 10);
    assert(dec_val(lend) == d.length);
}

/// A term row written at `pos` parses back to its fields.
proof fn lemma_term_row_at(s: Seq<u8>, pos: int, r: TermRowV)
    requires
        0 <= pos,
        pos + term_row_spec(r.id, r.term, r.count, r.df).len() <= s.len(),
        s.subrange(pos, pos + term_row_spec(r.id, r.term, r.count, r.df).len() as int)
            == term_row_spec(r.id, r.term, r.count, r.df),
        free_of(r.id, 34),
        free_of(r.term, 34),
    ensures
        parse_term_row(s, pos) == Some(
            (r, pos + term_row_spec(r.id, r.term, r.count, r.df).len()),
        ),
{
    let row = term_row_spec(r.id, r.term, r.count, r.df);
    let cd = dec_spec(r.count as nat);
    let dd = dec_spec(r.df as nat);
    lemma_dec_roundtrip(r.count as nat);
    lemma_dec_roundtrip(r.df as nat);
    let o1 = 0int;
    let o2 = o1 + r.id.len() + 3;
    let o3 = o2 + r.term.len() + 3;
    let o4 = o3 + cd.len() + 1;
    assert(row.subrange(o1 + 1, o1 + 1 + r.id.len() as int) =~= r.id);
    assert(row.subrange(o2 + 1, o2 + 1 + r.term.len() as int) =~= r.term);
    assert(row.subrange(o3, o3 + cd.len() as int) =~= cd);
    assert(row.subrange(o4, o4 + dd.len() as int) =~= dd);
    lemma_sub_eq(s, pos, row, o1 + 1, r.id);
    lemma_sub_eq(s, pos, row, o2 + 1, r.term);
    lemma_sub_eq(s, pos, row, o3, cd);
    lemma_sub_eq(s, pos, row, o4, dd);
    lemma_sub_byte(s, pos, row, o1);
    lemma_sub_byte(s, pos, row, o1 + 1 + r.id.len());
    lemma_sub_byte(s, pos, row, o2 - 1);
    lemma_sub_byte(s, pos, row, o2);
    lemma_sub_byte(s, pos, row, o2 + 1 + r.term.len());
    lemma_sub_byte(s, pos, row, o3 - 1);
    lemma_sub_byte(s, pos, row, o3 + cd.len());
    lemma_sub_byte(s, pos, row, o4 - 1);
    lemma_sub_byte(s, pos, row, o4 + dd.len());
    assert(row[o1] == 34 && row[o1 + 1 + r.id.len()] == 34);
    lemma_field_at(s, pos + o1, r.id);
    assert(row[o2 - 1] == 44);
    assert(row[o2] == 34 && row[o2 + 1 + r.term.len()] == 34);
    lemma_field_at(s, pos + o2, r.term);
    assert(row[o3 - 1] == 44);
    assert(row[o3 + cd.len()] == 44);
    assert(!is_digit(44));
    lemma_digits_at(s, pos + o3, cd);
    assert(row[o4 - 1] == 44);
    assert(row[o4 + dd.len()] == 10);
    assert(!is_digit(10));
    lemma_digits_at(s, pos + o4, dd);
}

/// The whole written document table parses back to its rows.
proof fn lemma_doc_table_at(s: Seq<u8>, pos: int, docs: Seq<(Vec<u8>, Document)>)
    requires
        0 <= pos <= s.len(),
        s.subrange(pos, s.len() as int) == doc_table_spec(docs),
        forall|i: int|
            0 <= i < docs.len() ==> {
                let p = #[trigger] docs[i];
                free_of(p.1.source@, 34) && free_of(p.1.title@, 34) && free_of(p.1.text@, 34)
                    && free_of(p.0@, 34)
            },
    ensures
        parse_doc_rows(s, pos) == Some(doc_rows_of(docs)),
    decreases docs.len(),
{
    let whole = doc_table_spec(docs);
    assert(s.subrange(pos, s.len() as int).len() == s.len() - pos);
    assert(pos + whole.len() == s.len());
    if docs.len() == 0 {
        assert(pos == s.len());
        assert(doc_rows_of(docs) =~= Seq::<DocRowV>::empty());
    } else {
        let id = docs[0].0@;
        let dv = docs[0].1@;
        let row = doc_row_spec(id, dv);
        let rest_table = doc_table_spec(docs.drop_first());
        assert(whole == row + rest_table);
        assert(whole.subrange(0, row.len() as int) =~= row);
        assert(whole.subrange(row.len() as int, whole.len() as int) =~= rest_table);
        lemma_sub_eq(s, pos, whole, 0, row);
        lemma_sub_eq(s, pos, whole, row.len() as int, rest_table);
        assert(s.subrange(pos, pos + row.len() as int) == row);
        lemma_doc_row_at(s, pos, id, dv);
        let p2 = pos + row.len() as int;
        assert(s.subrange(p2, s.len() as int) =~= rest_table);
        assert(forall|i: int|
            0 <= i < docs.drop_first().len() ==> #[trigger] docs.drop_first()[i] == docs[i + 1]);
        lemma_doc_table_at(s, p2, docs.drop_first());
        assert(doc_rows_of(docs) =~= seq![
            DocRowV {
                source: dv.source,
                title: dv.title,
                text: dv.text,
                id: id,
                length: dv.length,
            },
        ] + doc_rows_of(docs.drop_first()));
    }
}

/// A tail of the term table: the remaining rows of one document, then
/// the stretches of the remaining documents.
proof fn lemma_term_rows_tail(
    s: Seq<u8>,
    pos: int,
    id: Seq<u8>,
    terms: Seq<(Vec<u8>, u64)>,
    rest: Seq<(Vec<u8>, Document)>,
    tmap: Map<Seq<u8>, u64>,
)
    requires
        0 <= pos <= s.len(),
        s.subrange(pos, s.len() as int) == doc_term_rows_spec(id, terms, tmap) + term_table_spec(
            rest,
            tmap,
        ),
        free_of(id, 34),
        forall|j: int| 0 <= j < terms.len() ==> free_of(#[trigger] terms[j].0@, 34),
        forall|i: int|
            0 <= i < rest.len() ==> {
                let p = #[trigger] rest[i];
                free_of(p.0@, 34) && forall|j: int|
                    0 <= j < p.1.terms@.len() ==> free_of(#[trigger] p.1.terms@[j].0@, 34)
            },
    ensures
        parse_term_rows(s, pos) == Some(
            term_rows_of_doc(id, terms, tmap) + term_rows_of(rest, tmap),
        ),
    decreases rest.len(), terms.len(),
{
    let whole = doc_term_rows_spec(id, terms, tmap) + term_table_spec(rest, tmap);
    assert(s.subrange(pos, s.len() as int).len() == s.len() - pos);
    assert(pos + whole.len() == s.len());
    if terms.len() == 0 {
        assert(doc_term_rows_spec(id, terms, tmap) =~= Seq::<u8>::empty());
        assert(term_rows_of_doc(id, terms, tmap) =~= Seq::<TermRowV>::empty());
        if rest.len() == 0 {
            assert(term_table_spec(rest, tmap) =~= Seq::<u8>::empty());
            assert(whole.len() == 0);
            assert(pos == s.len());
            assert(term_rows_of_doc(id, terms, tmap) + term_rows_of(rest, tmap) =~= Seq::<
                TermRowV,
            >::empty());
        } else {
            assert(s.subrange(pos, s.len() as int) =~= doc_term_rows_spec(
                rest[0].0@,
                rest[0].1.terms@,
                tmap,
            ) + term_table_spec(rest.drop_first(), tmap)) by {
                assert(whole =~= doc_term_rows_spec(rest[0].0@, rest[0].1.terms@, tmap)
                    + term_table_spec(rest.drop_first(), tmap));
            }
            assert(forall|i: int|
                0 <= i < rest.drop_first().len() ==> #[trigger] rest.drop_first()[i] == rest[i
                    + 1]);
            lemma_term_rows_tail(s, pos, rest[0].0@, rest[0].1.terms@, rest.drop_first(), tmap);
            assert(term_rows_of(rest, tmap) == term_rows_of_doc(rest[0].0@, rest[0].1.terms@, tmap)
                + term_rows_of(rest.drop_first(), tmap));
            assert(term_rows_of_doc(id, terms, tmap) + term_rows_of(rest, tmap) =~= term_rows_of(
                rest,
                tmap,
            ));
        }
    } else {
        let r = TermRowV {
            id: id,
            term: terms[0].0@,
            count: terms[0].1,
            df: df_of(tmap, terms[0].0@),
        };
        let row = term_row_spec(r.id, r.term, r.count, r.df);
        let tail_bytes = doc_term_rows_spec(id, terms.drop_first(), tmap) + term_table_spec(
            rest,
            tmap,
        );
        assert(doc_term_rows_spec(id, terms, tmap) == row + doc_term_rows_spec(
            id,
            terms.drop_first(),
            tmap,
        ));
        assert(whole =~= row + tail_bytes);
        assert(whole.subrange(0, row.len() as int) =~= row);
        assert(whole.subrange(row.len() as int, whole.len() as int) =~= tail_bytes);
        lemma_sub_eq(s, pos, whole, 0, row);
        lemma_sub_eq(s, pos, whole, row.len() as int, tail_bytes);
        assert(free_of(r.term, 34));
        lemma_term_row_at(s, pos, r);
        let p2 = pos + row.len() as int;
        assert(s.subrange(p2, s.len() as int) =~= tail_bytes);
        assert(forall|j: int|
            0 <= j < terms.drop_first().len() ==> #[trigger] terms.drop_first()[j] == terms[j + 1]);
        lemma_term_rows_tail(s, p2, id, terms.drop_first(), rest, tmap);
        assert(term_rows_of_doc(id, terms, tmap) + term_rows_of(rest, tmap) =~= seq![r] + (
        term_rows_of_doc(id, terms.drop_first(), tmap) + term_rows_of(rest, tmap))) by {
            assert(forall|j: int|
                0 <= j < terms.drop_first().len() ==> #[trigger] terms.drop_first()[j] == terms[j
                    + 1]);
        }
    }
}

/// The whole written term table parses back to its rows.
proof fn lemma_term_table_at(
    s: Seq<u8>,
    pos: int,
    docs: Seq<(Vec<u8>, Document)>,
    tmap: Map<Seq<u8>, u64>,
)
    requires
        0 <= pos <= s.len(),
        s.subrange(pos, s.len() as int) == term_table_spec(docs, tmap),
        forall|i: int|
            0 <= i < docs.len() ==> {
                let p = #[trigger] docs[i];
                free_of(p.0@, 34) && forall|j: int|
                    0 <= j < p.1.terms@.len() ==> free_of(#[trigger] p.1.terms@[j].0@, 34)
            },
    ensures
        parse_term_rows(s, pos) == Some(term_rows_of(docs, tmap)),
{
    if docs.len() == 0 {
        assert(term_table_spec(docs, tmap).len() == 0);
        assert(s.subrange(pos, s.len() as int).len() == s.len() - pos);
        assert(pos == s.len());
        assert(term_rows_of(docs, tmap) =~= Seq::<TermRowV>::empty());
    } else {
        assert(s.subrange(pos, s.len() as int) =~= doc_term_rows_spec(
            docs[0].0@,
            docs[0].1.terms@,
            tmap,
        ) + term_table_spec(docs.drop_first(), tmap));
        assert(forall|i: int|
            0 <= i < docs.drop_first().len() ==> #[trigger] docs.drop_first()[i] == docs[i + 1]);
        lemma_term_rows_tail(s, pos, docs[0].0@, docs[0].1.terms@, docs.drop_first(), tmap);
        assert(term_rows_of(docs, tmap) == term_rows_of_doc(docs[0].0@, docs[0].1.terms@, tmap)
            + term_rows_of(docs.drop_first(), tmap));
    }
}

proof fn lemma_attach_none(trows: Seq<TermRowV>, id: Seq<u8>)
    requires
        forall|x: int| 0 <= x < trows.len() ==> #[trigger] trows[x].id != id,
    ensures
        attach_terms(trows, id) == Map::<Seq<u8>, u64>::empty(),
    decreases trows.len(),
{
    if trows.len() > 0 {
        assert(forall|x: int|
            0 <= x < trows.drop_last().len() ==> #[trigger] trows.drop_last()[x] == trows[x]);
        lemma_attach_none(trows.drop_last(), id);
        assert(trows[trows.len() - 1] == trows.last());
    }
}

/// Rows of other documents at the end contribute nothing.
proof fn lemma_attach_skip_suffix(a: Seq<TermRowV>, b: Seq<TermRowV>, id: Seq<u8>)
    requires
        forall|x: int| 0 <= x < b.len() ==> #[trigger] b[x].id != id,
    ensures
        attach_terms(a + b, id) == attach_terms(a, id),
    decreases b.len(),
{
    if b.len() == 0 {
        assert(a + b =~= a);
    } else {
        assert((a + b).drop_last() =~= a + b.drop_last());
        assert((a + b).last() == b.last());
        assert(b[b.len() - 1] == b.last());
        assert(forall|x: int|
            0 <= x < b.drop_last().len() ==> #[trigger] b.drop_last()[x] == b[x]);
        lemma_attach_skip_suffix(a, b.drop_last(), id);
    }
}

/// Rows of other documents at the front contribute nothing.
proof fn lemma_attach_skip_prefix(a: Seq<TermRowV>, b: Seq<TermRowV>, id: Seq<u8>)
    requires
        forall|x: int| 0 <= x < a.len() ==> #[trigger] a[x].id != id,
    ensures
        attach_terms(a + b, id) == attach_terms(b, id),
    decreases b.len(),
{
    if b.len() == 0 {
        assert(a + b =~= a);
        lemma_attach_none(a, id);
    } else {
        assert((a + b).drop_last() =~= a + b.drop_last());
        assert((a + b).last() == b.last());
        lemma_attach_skip_prefix(a, b.drop_last(), id);
    }
}

/// A document's own rows rebuild exactly its term map.
proof fn lemma_attach_own(id: Seq<u8>, terms: Seq<(Vec<u8>, u64)>, tmap: Map<Seq<u8>, u64>)
    ensures
        attach_terms(term_rows_of_doc(id, terms, tmap), id) == amap(terms),
    decreases terms.len(),
{
    let rows = term_rows_of_doc(id, terms, tmap);
    if terms.len() == 0 {
        assert(rows.len() == 0);
    } else {
        assert(rows.drop_last() =~= term_rows_of_doc(id, terms.drop_last(), tmap));
        assert(rows.last() == TermRowV {
            id: id,
            term: terms.last().0@,
            count: terms.last().1,
            df: df_of(tmap, terms.last().0@),
        });
        lemma_attach_own(id, terms.drop_last(), tmap);
    }
}

/// Every row of a table stretch carries one of its documents' ids.
proof fn lemma_trows_other(docs: Seq<(Vec<u8>, Document)>, tmap: Map<Seq<u8>, u64>, id: Seq<u8>)
    requires
        forall|j: int| 0 <= j < docs.len() ==> #[trigger] docs[j].0@ != id,
    ensures
        forall|x: int| 0 <= x < term_rows_of(docs, tmap).len() ==> #[trigger] term_rows_of(
            docs,
            tmap,
        )[x].id != id,
    decreases docs.len(),
{
    if docs.len() > 0 {
        let own = term_rows_of_doc(docs[0].0@, docs[0].1.terms@, tmap);
        let rest = term_rows_of(docs.drop_first(), tmap);
        assert(forall|j: int|
            0 <= j < docs.drop_first().len() ==> #[trigger] docs.drop_first()[j] == docs[j + 1]);
        lemma_trows_other(docs.drop_first(), tmap, id);
        assert forall|x: int| 0 <= x < term_rows_of(docs, tmap).len() implies #[trigger] term_rows_of(
            docs,
            tmap,
        )[x].id != id by {
            assert(term_rows_of(docs, tmap) == own + rest);
            if x < own.len() {
                assert(own[x].id == docs[0].0@);
            } else {
                assert(term_rows_of(docs, tmap)[x] == rest[x - own.len()]);
            }
        }
    }
}

/// Attaching from the whole table lands each document exactly on its
/// own rows.
proof fn lemma_attach_at(
    docs: Seq<(Vec<u8>, Document)>,
    tmap: Map<Seq<u8>, u64>,
    i: int,
)
    requires
        unique_ids(docs),
        0 <= i < docs.len(),
    ensures
        attach_terms(term_rows_of(docs, tmap), docs[i].0@) == amap(docs[i].1.terms@),
    decreases docs.len(),
{
    let own = term_rows_of_doc(docs[0].0@, docs[0].1.terms@, tmap);
    let rest = term_rows_of(docs.drop_first(), tmap);
    assert(term_rows_of(docs, tmap) == own + rest);
    assert(forall|j: int|
        0 <= j < docs.drop_first().len() ==> #[trigger] docs.drop_first()[j] == docs[j + 1]);
    if i == 0 {
        assert(forall|j: int|
            0 <= j < docs.drop_first().len() ==> #[trigger] docs.drop_first()[j].0@ != docs[0].0@);
        lemma_trows_other(docs.drop_first(), tmap, docs[0].0@);
        lemma_attach_skip_suffix(own, rest, docs[0].0@);
        lemma_attach_own(docs[0].0@, docs[0].1.terms@, tmap);
    } else {
        assert(forall|x: int| 0 <= x < own.len() ==> #[trigger] own[x].id == docs[0].0@);
        assert(docs[0].0@ != docs[i].0@);
        lemma_attach_skip_prefix(own, rest, docs[i].0@);
        assert(unique_ids(docs.drop_first())) by {
            assert(forall|x: int, y: int|
                0 <= x < y < docs.drop_first().len() ==> #[trigger] docs.drop_first()[x].0@
                    != #[trigger] docs.drop_first()[y].0@);
        }
        lemma_attach_at(docs.drop_first(), tmap, i - 1);
    }
}

proof fn lemma_loaded_docs_upto(
    docs: Seq<(Vec<u8>, Document)>,
    tmap: Map<Seq<u8>, u64>,
    i: int,
)
    requires
        unique_ids(docs),
        0 <= i <= docs.len(),
    ensures
        loaded_docs(doc_rows_of(docs.take(i)), term_rows_of(docs, tmap)) == dmap(docs.take(i)),
    decreases i,
{
    let trows = term_rows_of(docs, tmap);
    if i > 0 {
        lemma_loaded_docs_upto(docs, tmap, i - 1);
        let drows = doc_rows_of(docs.take(i));
        assert(drows.drop_last() =~= doc_rows_of(docs.take(i - 1)));
        assert(docs.take(i)[i - 1] == docs[i - 1]);
        assert(drows.last() == DocRowV {
            source: docs[i - 1].1.source@,
            title: docs[i - 1].1.title@,
            text: docs[i - 1].1.text@,
            id: docs[i - 1].0@,
            length: docs[i - 1].1.length,
        });
        lemma_attach_at(docs, tmap, i - 1);
        assert(docview_of_row(drows.last(), trows) == docs[i - 1].1@);
        assert(docs.take(i).drop_last() =~= docs.take(i - 1));
        assert(docs.take(i).last() == docs[i - 1]);
    } else {
        assert(doc_rows_of(docs.take(0)).len() == 0);
        assert(docs.take(0).len() == 0);
    }
}

/// The term row document `i` emits for its term `j`.
pub open spec fn doc_term_row(
    docs: Seq<(Vec<u8>, Document)>,
    tmap: Map<Seq<u8>, u64>,
    i: int,
    j: int,
) -> TermRowV {
    TermRowV {
        id: docs[i].0@,
        term: docs[i].1.terms@[j].0@,
        count: docs[i].1.terms@[j].1,
        df: df_of(tmap, docs[i].1.terms@[j].0@),
    }
}

/// Row `x` of the term table is one that some document emits.
pub open spec fn row_is_owned(
    docs: Seq<(Vec<u8>, Document)>,
    tmap: Map<Seq<u8>, u64>,
    x: int,
) -> bool {
    exists|i: int, j: int|
        #![trigger doc_term_row(docs, tmap, i, j)]
        0 <= i < docs.len() && 0 <= j < docs[i].1.terms@.len() && term_rows_of(docs, tmap)[x]
            == doc_term_row(docs, tmap, i, j)
}

/// Every row of the term table belongs to one of the documents: its id
/// is that document's id and its term one of that document's terms.
proof fn lemma_trows_props(docs: Seq<(Vec<u8>, Document)>, tmap: Map<Seq<u8>, u64>)
    ensures
        forall|x: int|
            0 <= x < term_rows_of(docs, tmap).len() ==> #[trigger] row_is_owned(docs, tmap, x),
    decreases docs.len(),
{
    if docs.len() > 0 {
        let own = term_rows_of_doc(docs[0].0@, docs[0].1.terms@, tmap);
        let rest = term_rows_of(docs.drop_first(), tmap);
        assert(term_rows_of(docs, tmap) == own + rest);
        assert(forall|i: int|
            0 <= i < docs.drop_first().len() ==> #[trigger] docs.drop_first()[i] == docs[i + 1]);
        lemma_trows_props(docs.drop_first(), tmap);
        assert forall|x: int|
            0 <= x < term_rows_of(docs, tmap).len() implies #[trigger] row_is_owned(
            docs,
            tmap,
            x,
        ) by {
            if x < own.len() {
                assert(term_rows_of(docs, tmap)[x] == own[x]);
                assert(own[x] == doc_term_row(docs, tmap, 0, x));
                assert(0 <= 0 < docs.len() && 0 <= x < docs[0].1.terms@.len() && term_rows_of(
                    docs,
                    tmap,
                )[x] == doc_term_row(docs, tmap, 0, x));
            } else {
                assert(term_rows_of(docs, tmap)[x] == rest[x - own.len()]);
                assert(row_is_owned(docs.drop_first(), tmap, x - own.len()));
                let (i0, j0): (int, int) = choose|i0: int, j0: int|
                    #![trigger doc_term_row(docs.drop_first(), tmap, i0, j0)]
                    0 <= i0 < docs.drop_first().len() && 0 <= j0
                        < docs.drop_first()[i0].1.terms@.len() && term_rows_of(
                        docs.drop_first(),
                        tmap,
                    )[x - own.len()] == doc_term_row(docs.drop_first(), tmap, i0, j0);
                assert(docs.drop_first()[i0] == docs[i0 + 1]);
                assert(doc_term_row(docs.drop_first(), tmap, i0, j0) == doc_term_row(
                    docs,
                    tmap,
                    i0 + 1,
                    j0,
                ));
                assert(0 <= i0 + 1 < docs.len() && 0 <= j0 < docs[i0 + 1].1.terms@.len()
                    && term_rows_of(docs, tmap)[x] == doc_term_row(docs, tmap, i0 + 1, j0));
            }
        }
    }
}

/// A term some document carries appears in the term table.
proof fn lemma_trows_covers(
    docs: Seq<(Vec<u8>, Document)>,
    tmap: Map<Seq<u8>, u64>,
    i: int,
    k: Seq<u8>,
)
    requires
        0 <= i < docs.len(),
        amap(docs[i].1.terms@).contains_key(k),
    ensures
        exists|x: int|
            0 <= x < term_rows_of(docs, tmap).len() && #[trigger] term_rows_of(docs, tmap)[x].term
                == k,
    decreases docs.len(),
{
    let own = term_rows_of_doc(docs[0].0@, docs[0].1.terms@, tmap);
    let rest = term_rows_of(docs.drop_first(), tmap);
    assert(term_rows_of(docs, tmap) == own + rest);
    if i == 0 {
        crate::table::lemma_amap_dom(docs[0].1.terms@, k);
        let j = choose|j: int| 0 <= j < docs[0].1.terms@.len() && #[trigger] docs[0].1.terms@[j].0@ == k;
        assert(own[j].term == k);
        assert(term_rows_of(docs, tmap)[j].term == k);
    } else {
        assert(forall|x: int|
            0 <= x < docs.drop_first().len() ==> #[trigger] docs.drop_first()[x] == docs[x + 1]);
        lemma_trows_covers(docs.drop_first(), tmap, i - 1, k);
        let x = choose|x: int|
            0 <= x < rest.len() && #[trigger] rest[x].term == k;
        assert(term_rows_of(docs, tmap)[own.len() + x].term == k);
    }
}

/// What the corpus-wide table loads to, row by row: exactly the terms
/// the rows mention, each at the value the table stores for it.
proof fn lemma_loaded_terms_chr(
    trows: Seq<TermRowV>,
    docsmap: Map<Seq<u8>, DocView>,
    tmap: Map<Seq<u8>, u64>,
)
    requires
        forall|x: int|
            0 <= x < trows.len() ==> {
                let r = #[trigger] trows[x];
                docsmap.contains_key(r.id) && tmap.contains_key(r.term) && r.df == tmap[r.term]
            },
    ensures
        forall|k: Seq<u8>|
            #[trigger] loaded_terms(trows, docsmap).contains_key(k) <==> exists|x: int|
                0 <= x < trows.len() && #[trigger] trows[x].term == k,
        forall|k: Seq<u8>|
            #[trigger] loaded_terms(trows, docsmap).contains_key(k) ==> loaded_terms(
                trows,
                docsmap,
            )[k] == tmap[k],
    decreases trows.len(),
{
    if trows.len() > 0 {
        assert(forall|x: int|
            0 <= x < trows.drop_last().len() ==> #[trigger] trows.drop_last()[x] == trows[x]);
        lemma_loaded_terms_chr(trows.drop_last(), docsmap, tmap);
        let m = loaded_terms(trows.drop_last(), docsmap);
        let last = trows.last();
        assert(trows[trows.len() - 1] == last);
        assert(docsmap.contains_key(last.id));
        assert forall|k: Seq<u8>| #[trigger] loaded_terms(trows, docsmap).contains_key(k) implies (
        exists|x: int| 0 <= x < trows.len() && #[trigger] trows[x].term == k) by {
            if k == last.term {
                assert(trows[trows.len() - 1].term == k);
            } else {
                assert(m.contains_key(k));
                let x = choose|x: int|
                    0 <= x < trows.drop_last().len() && #[trigger] trows.drop_last()[x].term == k;
                assert(trows[x].term == k);
            }
        }
        assert forall|k: Seq<u8>| (exists|x: int|
            0 <= x < trows.len() && #[trigger] trows[x].term == k) implies #[trigger] loaded_terms(
            trows,
            docsmap,
        ).contains_key(k) by {
            let x = choose|x: int| 0 <= x < trows.len() && #[trigger] trows[x].term == k;
            if x < trows.len() - 1 {
                assert(trows.drop_last()[x].term == k);
                assert(m.contains_key(k));
            }
        }
    }
}

/// The corpus-wide frequency table survives the round trip too, as long
/// as it covers exactly the terms the documents carry — which is what
/// `document_frequency` builds.
pub proof fn lemma_terms_roundtrip(docs: Seq<(Vec<u8>, Document)>, tmap: Map<Seq<u8>, u64>)
    requires
        unique_ids(docs),
        forall|k: Seq<u8>|
            #[trigger] tmap.contains_key(k) <==> exists|i: int|
                0 <= i < docs.len() && amap((#[trigger] docs[i].1).terms@).contains_key(k),
    ensures
        loaded_terms(term_rows_of(docs, tmap), dmap(docs)) == tmap,
{
    let trows = term_rows_of(docs, tmap);
    let docsmap = dmap(docs);
    lemma_trows_props(docs, tmap);
    assert forall|x: int| 0 <= x < trows.len() implies {
        let r = #[trigger] trows[x];
        docsmap.contains_key(r.id) && tmap.contains_key(r.term) && r.df == tmap[r.term]
    } by {
        assert(row_is_owned(docs, tmap, x));
        let (i, j): (int, int) = choose|i: int, j: int|
            #![trigger doc_term_row(docs, tmap, i, j)]
            0 <= i < docs.len() && 0 <= j < docs[i].1.terms@.len() && term_rows_of(docs, tmap)[x]
                == doc_term_row(docs, tmap, i, j);
        crate::corpus::lemma_dmap_dom(docs, docs[i].0@);
        crate::table::lemma_amap_dom(docs[i].1.terms@, docs[i].1.terms@[j].0@);
        assert(amap(docs[i].1.terms@).contains_key(docs[i].1.terms@[j].0@));
        assert(tmap.contains_key(docs[i].1.terms@[j].0@));
    }
    lemma_loaded_terms_chr(trows, docsmap, tmap);
    let loaded = loaded_terms(trows, docsmap);
    assert forall|k: Seq<u8>| #[trigger] tmap.contains_key(k) implies loaded.contains_key(k) by {
        let i = choose|i: int|
            0 <= i < docs.len() && amap((#[trigger] docs[i].1).terms@).contains_key(k);
        lemma_trows_covers(docs, tmap, i, k);
    }
    assert forall|k: Seq<u8>| #[trigger] loaded.contains_key(k) implies tmap.contains_key(k) by {
        let x = choose|x: int| 0 <= x < trows.len() && #[trigger] trows[x].term == k;
    }
    assert(loaded =~= tmap);
}

/// A corpus written as its two tables and loaded back reproduces exactly
/// the same documents: the same ids, and under each id the same source,
/// title, stored body, term map and length.
pub proof fn lemma_store_roundtrip(docs: Seq<(Vec<u8>, Document)>, tmap: Map<Seq<u8>, u64>)
    requires
        unique_ids(docs),
        forall|i: int|
            0 <= i < docs.len() ==> {
                let p = #[trigger] docs[i];
                free_of(p.1.source@, 34) && free_of(p.1.title@, 34) && free_of(p.1.text@, 34)
                    && free_of(p.0@, 34) && forall|j: int|
                    0 <= j < p.1.terms@.len() ==> free_of(#[trigger] p.1.terms@[j].0@, 34)
            },
    ensures
        parse_doc_rows(doc_table_spec(docs), 0) == Some(doc_rows_of(docs)),
        parse_term_rows(term_table_spec(docs, tmap), 0) == Some(term_rows_of(docs, tmap)),
        loaded_docs(doc_rows_of(docs), term_rows_of(docs, tmap)) == dmap(docs),
{
    let dt = doc_table_spec(docs);
    assert(dt.subrange(0, dt.len() as int) =~= dt);
    lemma_doc_table_at(dt, 0, docs);
    let tt = term_table_spec(docs, tmap);
    assert(tt.subrange(0, tt.len() as int) =~= tt);
    lemma_term_table_at(tt, 0, docs, tmap);
    lemma_loaded_docs_upto(docs, tmap, docs.len() as int);
    assert(docs.take(docs.len() as int) =~= docs);
}

} // verus!
