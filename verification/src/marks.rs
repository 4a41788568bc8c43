use vstd::prelude::*;

verus! {

// The byte strings the segmenter and the store treat specially: list
// markers, the internal markup that keeps a note on one stored line, and
// the punctuation stripped during term normalization.

/// `"*  "` — the list-item delimiter inside a heading section.
pub open spec fn star_mark() -> Seq<u8> {
    seq![42u8, 32u8, 32u8]
}

/// `"<ul>"` — internal marker standing for a list item.
pub open spec fn ul_mark() -> Seq<u8> {
    seq![60u8, 117u8, 108u8, 62u8]
}

/// `"<br>"` — internal marker standing for a line break.
pub open spec fn br_mark() -> Seq<u8> {
    seq![60u8, 98u8, 114u8, 62u8]
}

/// `"<li>"` — stray list markup dropped during normalization.
pub open spec fn li_mark() -> Seq<u8> {
    seq![60u8, 108u8, 105u8, 62u8]
}

/// `"<br><ul>"` — a break followed by a list marker, rendered as an
/// indented list line.
pub open spec fn br_ul_mark() -> Seq<u8> {
    br_mark() + ul_mark()
}

/// `"` — the byte the quoted store format cannot hold inside a field.
pub open spec fn quote_mark() -> Seq<u8> {
    seq![34u8]
}

/// `'` — what embedded quotes are normalized to.
pub open spec fn apos_mark() -> Seq<u8> {
    seq![39u8]
}

pub open spec fn nl_mark() -> Seq<u8> {
    seq![10u8]
}

pub open spec fn tab_mark() -> Seq<u8> {
    seq![9u8]
}

pub open spec fn sp_mark() -> Seq<u8> {
    seq![32u8]
}

/// Four spaces — an indentation step, turned into a tab while a section
/// is parsed.
pub open spec fn four_sp_mark() -> Seq<u8> {
    seq![32u8, 32u8, 32u8, 32u8]
}

pub open spec fn dot_mark() -> Seq<u8> {
    seq![46u8]
}

pub open spec fn comma_mark() -> Seq<u8> {
    seq![44u8]
}

pub open spec fn lbracket_mark() -> Seq<u8> {
    seq![91u8]
}

/// `"**"` — emphasis markup dropped from searchable text.
pub open spec fn star2_mark() -> Seq<u8> {
    seq![42u8, 42u8]
}

pub open spec fn colon_mark() -> Seq<u8> {
    seq![58u8]
}

/// `"\n    *   "` — how a stored `<br><ul>` is shown again.
pub open spec fn nl_list_mark() -> Seq<u8> {
    seq![10u8, 32u8, 32u8, 32u8, 32u8, 42u8, 32u8, 32u8, 32u8]
}

/// `"*   "` — how a stored `<ul>` is shown again.
pub open spec fn star_sp_mark() -> Seq<u8> {
    seq![42u8, 32u8, 32u8, 32u8]
}

/// `"\n       "` — how a stored `<br>` is shown again.
pub open spec fn nl_indent_mark() -> Seq<u8> {
    seq![10u8, 32u8, 32u8, 32u8, 32u8, 32u8, 32u8, 32u8]
}

} // verus!
