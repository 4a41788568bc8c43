use vstd::prelude::*;

use crate::bytes::{
    dup, free_of, lemma_replace_keeps_free, lemma_replace_rm, lemma_split_nonempty, push_all,
    replace, replace_spec, split, split_spec, tokens, tokens_spec, trim, trim_end, trim_end_spec,
    trim_spec, trim_start, trim_start_spec, vec1, vec2, vec3, vec4, views,
};
use crate::marks::{
    apos_mark, br_mark, br_ul_mark, colon_mark, four_sp_mark, lbracket_mark, nl_indent_mark,
    nl_list_mark, nl_mark, quote_mark, sp_mark, star2_mark, star_mark, star_sp_mark, tab_mark,
    ul_mark,
};
use crate::stemmer::{term_of_token, term_spec};
use crate::table::{
    akeys, amap, counts_map, count_in, lemma_count_le_len, lemma_counts_push, table_bump, unique_keys,
};

verus! {

/// One note, as segmented out of a file: a heading, the file it came
/// from, its body in internal markup, and its term statistics.
pub struct Document {
    pub title: Vec<u8>,
    pub source: Vec<u8>,
    pub text: Vec<u8>,
    pub terms: Vec<(Vec<u8>, u64)>,
    pub length: u64,
}

/// The mathematical reading of a document: plain byte strings and a
/// finite map of term counts.
pub struct DocView {
    pub title: Seq<u8>,
    pub source: Seq<u8>,
    pub text: Seq<u8>,
    pub terms: Map<Seq<u8>, u64>,
    pub length: u64,
}

impl View for Document {
    type V = DocView;

    open spec fn view(&self) -> DocView {
        DocView {
            title: self.title@,
            source: self.source@,
            text: self.text@,
            terms: amap(self.terms@),
            length: self.length,
        }
    }
}

impl Document {
    /// The representation invariant: the term table is a map, and every
    /// field the store writes is free of raw quotes.
    pub open spec fn inv(&self) -> bool {
        &&& unique_keys(self.terms@)
        &&& free_of(self.title@, 34)
        &&& free_of(self.source@, 34)
        &&& free_of(self.text@, 34)
        &&& forall|i: int| 0 <= i < self.terms@.len() ==> free_of(#[trigger] self.terms@[i].0@, 34)
    }
}

// ---------------------------------------------------------------------------
// Section parsing
// ---------------------------------------------------------------------------

/// The list items of one heading section.
pub open spec fn chunk_pieces(chunk: Seq<u8>) -> Seq<Seq<u8>> {
    split_spec(chunk, star_mark())
}

/// The title of a section: what stands before the first list item,
/// trimmed, with embedded quotes normalized to apostrophes.
pub open spec fn title_spec(chunk: Seq<u8>) -> Seq<u8> {
    replace_spec(trim_spec(chunk_pieces(chunk)[0]), quote_mark(), apos_mark())
}

/// One list item readied for the flat store: indentation steps squeezed
/// to tabs, leading space dropped, and a list marker put in front.
pub open spec fn item_spec(piece: Seq<u8>) -> Seq<u8> {
    ul_mark() + trim_start_spec(replace_spec(piece, four_sp_mark(), tab_mark()))
}

pub open spec fn cat_items(ps: Seq<Seq<u8>>) -> Seq<u8>
    decreases ps.len(),
{
    if ps.len() == 0 {
        Seq::<u8>::empty()
    } else {
        item_spec(ps[0]) + cat_items(ps.drop_first())
    }
}

/// The stored body of a section: its items concatenated, then newlines
/// turned to break markers, quotes normalized, tabs widened.
pub open spec fn body_spec(chunk: Seq<u8>) -> Seq<u8> {
    replace_spec(
        replace_spec(
            replace_spec(
                trim_end_spec(cat_items(chunk_pieces(chunk).drop_first())),
                nl_mark(),
                br_mark(),
            ),
            quote_mark(),
            apos_mark(),
        ),
        tab_mark(),
        sp_mark(),
    )
}

/// Parse one heading section into a document. The terms and length stay
/// empty until `term_frequency` runs; the source is set by the caller.
pub fn parse_doc(chunk: &Vec<u8>) -> (d: Document)
    ensures
        d@.title == title_spec(chunk@),
        d@.text == body_spec(chunk@),
        d@.source == Seq::<u8>::empty(),
        d@.terms == Map::<Seq<u8>, u64>::empty(),
        d@.length == 0,
        d.inv(),
{
    let star = vec3(42, 32, 32);
    let quote = vec1(34);
    let apos = vec1(39);
    let pieces = split(chunk, &star);
    proof {
        lemma_split_nonempty(chunk@, star_mark());
        assert(views(pieces@).len() >= 1);
    }
    let trimmed = trim(&pieces[0]);
    let title = replace(&trimmed, &quote, &apos);
    proof {
        lemma_replace_rm(trimmed@, 34, apos_mark());
    }
    let four_sp = vec4(32, 32, 32, 32);
    let tab = vec1(9);
    let ul = vec4(60, 117, 108, 62);
    let mut raw: Vec<u8> = Vec::new();
    let mut i: usize = 1;
    let ghost ps = views(pieces@).drop_first();
    proof {
        assert(ps.skip(0) =~~= ps);
        assert(raw@ + cat_items(ps) =~= cat_items(ps));
    }
    while i < pieces.len()
        invariant
            1 <= i <= pieces@.len(),
            ps == views(pieces@).drop_first(),
            four_sp@ == four_sp_mark(),
            tab@ == tab_mark(),
            cat_items(ps) == raw@ + cat_items(ps.skip(i - 1)),
        decreases pieces@.len() - i,
    {
        let ghost rest = ps.skip(i - 1);
        let ghost raw0 = raw@;
        let replaced = replace(&pieces[i], &four_sp, &tab);
        let item_tail = trim_start(&replaced);
        raw.push(60);
        raw.push(117);
        raw.push(108);
        raw.push(62);
        push_all(&mut raw, &item_tail);
        proof {
            assert(rest[0] == views(pieces@)[i as int]);
            assert(rest.drop_first() =~= ps.skip(i as int));
            assert(cat_items(rest) == item_spec(rest[0]) + cat_items(ps.skip(i as int)));
            assert(item_tail@ == trim_start_spec(replace_spec(rest[0], four_sp_mark(), tab_mark())));
            assert(raw@ =~= raw0 + item_spec(rest[0]));
            assert(raw0 + (item_spec(rest[0]) + cat_items(ps.skip(i as int))) =~= raw@ + cat_items(
                ps.skip(i as int),
            ));
        }
        i += 1;
    }
    proof {
        assert(ps.skip(ps.len() as int) =~~= Seq::<Seq<u8>>::empty());
        assert(raw@ + Seq::<u8>::empty() =~= raw@);
        assert(raw@ == cat_items(ps));
    }
    let trimmed_body = trim_end(&raw);
    let nl = vec1(10);
    let br = vec4(60, 98, 114, 62);
    let sp = vec1(32);
    let with_br = replace(&trimmed_body, &nl, &br);
    let with_apos = replace(&with_br, &quote, &apos);
    let text = replace(&with_apos, &tab, &sp);
    proof {
        lemma_replace_rm(with_br@, 34, apos_mark());
        lemma_replace_keeps_free(with_apos@, tab_mark(), sp_mark(), 34);
    }
    Document { title, source: Vec::new(), text, terms: Vec::new(), length: 0 }
}

// ---------------------------------------------------------------------------
// Term statistics
// ---------------------------------------------------------------------------

/// The text a document is searched by: body and title joined, with list
/// markup, brackets, emphasis and colons stripped.
pub open spec fn searchable_spec(text: Seq<u8>, title: Seq<u8>) -> Seq<u8> {
    replace_spec(
        replace_spec(
            replace_spec(
                replace_spec(text + sp_mark() + title, ul_mark(), sp_mark()),
                lbracket_mark(),
                sp_mark(),
            ),
            star2_mark(),
            sp_mark(),
        ),
        colon_mark(),
        Seq::<u8>::empty(),
    )
}

/// The raw whitespace tokens a document's statistics are built from.
pub open spec fn doc_tokens_spec(text: Seq<u8>, title: Seq<u8>) -> Seq<Seq<u8>> {
    tokens_spec(searchable_spec(text, title))
}

/// The normalized terms of those tokens, in order, duplicates kept.
pub open spec fn doc_terms_seq(text: Seq<u8>, title: Seq<u8>) -> Seq<Seq<u8>> {
    doc_tokens_spec(text, title).map_values(|t: Seq<u8>| term_spec(t))
}

impl Document {
    /// Rebuild the term counts and token length from the body and title.
    pub fn term_frequency(&mut self)
        ensures
            final(self)@.terms == counts_map(doc_terms_seq(old(self)@.text, old(self)@.title)),
            final(self)@.length == doc_tokens_spec(old(self)@.text, old(self)@.title).len(),
            final(self)@.title == old(self)@.title,
            final(self)@.source == old(self)@.source,
            final(self)@.text == old(self)@.text,
            old(self).inv() ==> final(self).inv(),
    {
        let sp = vec1(32);
        let mut merged = dup(&self.text);
        merged.push(32);
        push_all(&mut merged, &self.title);
        proof {
            assert(merged@ =~= self.text@ + sp_mark() + self.title@);
        }
        let ul = vec4(60, 117, 108, 62);
        let a = replace(&merged, &ul, &sp);
        let b = replace(&a, &vec1(91), &sp);
        let c = replace(&b, &vec2(42, 42), &sp);
        let empty: Vec<u8> = Vec::new();
        let cleaned = replace(&c, &vec1(58), &empty);
        let toks = tokens(&cleaned);
        let ghost stems = doc_terms_seq(old(self)@.text, old(self)@.title);
        proof {
            assert(stems == views(toks@).map_values(|t: Seq<u8>| term_spec(t)));
        }
        self.terms = Vec::new();
        let mut i: usize = 0;
        proof {
            assert(stems.take(0) =~~= Seq::<Seq<u8>>::empty());
            assert(amap(self.terms@) =~= counts_map(stems.take(0)));
        }
        while i < toks.len()
            invariant
                i <= toks@.len(),
                stems == views(toks@).map_values(|t: Seq<u8>| term_spec(t)),
                unique_keys(self.terms@),
                amap(self.terms@) == counts_map(stems.take(i as int)),
                forall|j: int|
                    0 <= j < self.terms@.len() ==> free_of(#[trigger] self.terms@[j].0@, 34),
                self.title@ == old(self).title@,
                self.source@ == old(self).source@,
                self.text@ == old(self).text@,
                self.length == old(self).length,
            decreases toks@.len() - i,
        {
            let term = term_of_token(&toks[i]);
            let ghost pre = stems.take(i as int);
            let ghost prev_terms = self.terms@;
            proof {
                assert(stems[i as int] == term_spec(toks@[i as int]@));
                assert(stems.take(i + 1) =~~= pre.push(term@));
                if counts_map(pre).contains_key(term@) {
                    lemma_count_le_len(pre, term@);
                }
                lemma_counts_push(pre, term@);
            }
            table_bump(&mut self.terms, &term);
            proof {
                assert(amap(self.terms@) == counts_map(stems.take(i + 1)));
                assert forall|j: int| 0 <= j < self.terms@.len() implies free_of(
                    #[trigger] self.terms@[j].0@,
                    34,
                ) by {
                    assert(akeys(self.terms@)[j] == self.terms@[j].0@);
                    if amap(prev_terms).contains_key(term@) {
                        assert(akeys(self.terms@) == akeys(prev_terms));
                        assert(akeys(prev_terms).len() == prev_terms.len());
                        assert(akeys(prev_terms)[j] == prev_terms[j].0@);
                    } else {
                        assert(akeys(self.terms@) == akeys(prev_terms).push(term@));
                        assert(akeys(prev_terms).len() == prev_terms.len());
                        assert(akeys(self.terms@).len() == self.terms@.len());
                        if j < prev_terms.len() {
                            assert(akeys(prev_terms)[j] == prev_terms[j].0@);
                        } else {
                            assert(j == prev_terms.len());
                            assert(akeys(prev_terms).push(term@)[j] == term@);
                        }
                    }
                }
            }
            i += 1;
        }
        proof {
            assert(stems.take(stems.len() as int) =~~= stems);
        }
        self.length = toks.len() as u64;
    }

    /// The stored body turned back into readable text: break-plus-list
    /// markers become indented list lines, plain list markers a star,
    /// plain breaks an indented new line.
    pub fn display_text(&self) -> (out: Vec<u8>)
        ensures
            out@ == display_spec(self@.text),
    {
        let br_ul = {
            let mut v = vec4(60, 98, 114, 62);
            let ul = vec4(60, 117, 108, 62);
            push_all(&mut v, &ul);
            proof {
                assert(v@ =~= br_ul_mark());
            }
            v
        };
        let nl_list = {
            let mut v = vec4(10, 32, 32, 32);
            let t = vec4(32, 42, 32, 32);
            push_all(&mut v, &t);
            v.push(32);
            proof {
                assert(v@ =~= nl_list_mark());
            }
            v
        };
        let star_sp = vec4(42, 32, 32, 32);
        let nl_indent = {
            let mut v = vec4(10, 32, 32, 32);
            let t = vec4(32, 32, 32, 32);
            push_all(&mut v, &t);
            proof {
                assert(v@ =~= nl_indent_mark());
            }
            v
        };
        let a = replace(&self.text, &br_ul, &nl_list);
        let b = replace(&a, &vec4(60, 117, 108, 62), &star_sp);
        replace(&b, &vec4(60, 98, 114, 62), &nl_indent)
    }
}

/// How a stored body is shown: the inverse markup substitutions, applied
/// in the order that keeps a break-plus-list pair one unit.
pub open spec fn display_spec(text: Seq<u8>) -> Seq<u8> {
    replace_spec(
        replace_spec(replace_spec(text, br_ul_mark(), nl_list_mark()), ul_mark(), star_sp_mark()),
        br_mark(),
        nl_indent_mark(),
    )
}

} // verus!
