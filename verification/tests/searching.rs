use rememberall::corpus::Corpus;
use rememberall::document::Document;
use rememberall::ranker::SearchError;

const NOTE_CATS: &[u8] = b"# Cats\n*  Cats are great pets.";
const NOTE_DOGS: &[u8] = b"# Dogs\n*  Dogs are loyal pets.";
const NOTE_ONE_CAT: &[u8] = b"# Cat\n*  A cat.";
const ID_CATS: &[u8] = b"eb6df1b0040eea3be1a94399835d3c766215a3b1a32ce1a1fed55307cbc60b76";
const ID_ONE_CAT: &[u8] = b"ab8c5b035e4d941cd1a746f097c941c08c328a56bd88d14d2802d8976e41ac38";

fn corpus_with(notes: &[&[u8]]) -> Corpus {
    let mut c = Corpus::new();
    for (i, n) in notes.iter().enumerate() {
        let source = format!("/notes/{}.markdown", i).into_bytes();
        c.add_text(&source, &n.to_vec());
    }
    c.document_frequency();
    c
}

fn query(terms: &[&[u8]]) -> Vec<Vec<u8>> {
    terms.iter().map(|t| t.to_vec()).collect()
}

#[test]
fn empty_corpus_reports_no_results_without_crashing() {
    let c = Corpus::new();
    let r = c.search(&query(&[b"cats"]), 1);
    assert!(matches!(r, Err(SearchError::EmptyCorpus)));
}

#[test]
fn cats_query_ranks_the_cats_note_and_drops_the_dogs_note() {
    let c = corpus_with(&[NOTE_CATS, NOTE_DOGS]);
    let hits = c.search(&query(&[b"cats"]), 2).unwrap();
    // only the matching document comes back, never padded with non-matches
    assert_eq!(hits.len(), 1);
    assert_eq!(hits[0].id, ID_CATS.to_vec());
    // its sole stem occurs nowhere else, so the posterior is exactly one
    assert_eq!(hits[0].num, hits[0].den);
    assert_eq!(hits[0].rank, 1_000_000_000);
}

#[test]
fn result_count_is_bounded_by_matching_documents() {
    let c = corpus_with(&[NOTE_CATS, NOTE_DOGS]);
    let hits = c.search(&query(&[b"cats"]), 5).unwrap();
    assert_eq!(hits.len(), 1);
}

#[test]
fn result_count_is_bounded_by_the_limit() {
    let c = corpus_with(&[NOTE_CATS, NOTE_ONE_CAT]);
    let hits = c.search(&query(&[b"cats"]), 1).unwrap();
    assert_eq!(hits.len(), 1);
}

#[test]
fn exact_posterior_ratios_and_ranks() {
    // Cats note: "cat" twice in five tokens; short note: twice in three.
    let c = corpus_with(&[NOTE_CATS, NOTE_ONE_CAT]);
    let hits = c.search(&query(&[b"cats"]), 2).unwrap();
    assert_eq!(hits.len(), 2);
    // total token count is 8; numerator = tf * total = 16 for both;
    // denominator = 16 + evidence(2) * length, so the shorter note wins
    assert_eq!(hits[0].id, ID_ONE_CAT.to_vec());
    assert_eq!(hits[0].num, 16);
    assert_eq!(hits[0].den, 22);
    assert_eq!(hits[0].rank, 727_272_727);
    assert_eq!(hits[1].id, ID_CATS.to_vec());
    assert_eq!(hits[1].num, 16);
    assert_eq!(hits[1].den, 26);
    assert_eq!(hits[1].rank, 615_384_615);
}

#[test]
fn unmatched_query_reports_no_results() {
    let c = corpus_with(&[NOTE_CATS, NOTE_DOGS]);
    let r = c.search(&query(&[b"zebra"]), 1);
    assert!(matches!(r, Err(SearchError::NoResults)));
}

#[test]
fn multi_term_query_needs_every_stem() {
    let c = corpus_with(&[NOTE_CATS, NOTE_DOGS]);
    // "loyal" only occurs in the dogs note, "cats" only in the cats note:
    // no document carries both, so nothing scores above zero
    let r = c.search(&query(&[b"cats", b"loyal"]), 2);
    assert!(matches!(r, Err(SearchError::NoResults)));
    // both stems of this query stand in the dogs note
    let hits = c.search(&query(&[b"dogs", b"loyal"]), 2).unwrap();
    assert_eq!(hits.len(), 1);
}

#[test]
fn duplicate_query_terms_collapse() {
    let c = corpus_with(&[NOTE_CATS, NOTE_ONE_CAT]);
    let once = c.search(&query(&[b"cats"]), 2).unwrap();
    let twice = c.search(&query(&[b"cats", b"cat"]), 2).unwrap();
    assert_eq!(once.len(), twice.len());
    assert_eq!(once[0].num, twice[0].num);
    assert_eq!(once[0].den, twice[0].den);
}

#[test]
fn oversized_counts_are_refused_not_mangled() {
    let mut c = Corpus::new();
    let d = Document {
        title: b"t".to_vec(),
        source: b"s".to_vec(),
        text: b"x".to_vec(),
        terms: vec![(b"x".to_vec(), u64::MAX)],
        length: u64::MAX,
    };
    c.put_document(b"id1".to_vec(), d);
    let r = c.search(&query(&[b"x"]), 1);
    assert!(matches!(r, Err(SearchError::ScoreOverflow)));
}

#[test]
fn legacy_documents_without_length_never_match() {
    let mut c = Corpus::new();
    let d = Document {
        title: b"t".to_vec(),
        source: b"s".to_vec(),
        text: b"x".to_vec(),
        terms: vec![(b"x".to_vec(), 1)],
        length: 0,
    };
    c.put_document(b"id1".to_vec(), d);
    let r = c.search(&query(&[b"x"]), 1);
    assert!(matches!(r, Err(SearchError::NoResults)));
}
