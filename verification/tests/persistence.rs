use rememberall::corpus::Corpus;
use rememberall::store::{encode_documents, encode_index, load_corpus, StoreError};
use rememberall::table::table_get;

const NOTE_CATS: &[u8] = b"# Cats\n*  Cats are great pets.";
const NOTE_DOGS: &[u8] = b"# Dogs\n*  Dogs are loyal pets.";

fn corpus_with(notes: &[&[u8]]) -> Corpus {
    let mut c = Corpus::new();
    for (i, n) in notes.iter().enumerate() {
        let source = format!("/notes/{}.markdown", i).into_bytes();
        c.add_text(&source, &n.to_vec());
    }
    c.document_frequency();
    c
}

#[test]
fn written_corpus_loads_back_identically() {
    let c = corpus_with(&[NOTE_CATS, NOTE_DOGS]);
    let doc_table = encode_documents(&c);
    let term_table = encode_index(&c);
    let loaded = load_corpus(&doc_table, &term_table).unwrap();
    assert_eq!(loaded.documents.len(), c.documents.len());
    for (id, d) in &c.documents {
        let l = loaded.get(id).expect("document id survives the round trip");
        assert_eq!(l.title, d.title);
        assert_eq!(l.source, d.source);
        assert_eq!(l.text, d.text);
        assert_eq!(l.length, d.length);
        assert_eq!(l.terms.len(), d.terms.len());
        for (term, count) in &d.terms {
            assert_eq!(table_get(&l.terms, term), Some(*count));
        }
    }
    // the corpus-wide frequency table survives too
    assert_eq!(loaded.terms.len(), c.terms.len());
    for (term, df) in &c.terms {
        assert_eq!(table_get(&loaded.terms, term), Some(*df));
    }
}

#[test]
fn quotes_in_notes_are_normalized_before_writing() {
    let note = b"# A \"quoted\" title\n*  Some \"quoted\" text.";
    let c = corpus_with(&[note]);
    assert_eq!(c.documents[0].1.title, b"A 'quoted' title".to_vec());
    assert_eq!(c.documents[0].1.text, b"<ul>Some 'quoted' text.".to_vec());
    let loaded = load_corpus(&encode_documents(&c), &encode_index(&c)).unwrap();
    let id = c.documents[0].0.clone();
    assert_eq!(loaded.get(&id).unwrap().title, b"A 'quoted' title".to_vec());
}

#[test]
fn titles_spanning_lines_survive_the_round_trip() {
    let note = b"# First line\nsecond line\n*  Body text.";
    let c = corpus_with(&[note]);
    assert_eq!(c.documents[0].1.title, b"First line\nsecond line".to_vec());
    let loaded = load_corpus(&encode_documents(&c), &encode_index(&c)).unwrap();
    let id = c.documents[0].0.clone();
    assert_eq!(
        loaded.get(&id).unwrap().title,
        b"First line\nsecond line".to_vec()
    );
}

#[test]
fn empty_corpus_round_trips_to_empty() {
    let c = Corpus::new();
    let loaded = load_corpus(&encode_documents(&c), &encode_index(&c)).unwrap();
    assert_eq!(loaded.documents.len(), 0);
    assert_eq!(loaded.terms.len(), 0);
}

#[test]
fn malformed_document_table_is_refused() {
    let r = load_corpus(&b"not a table".to_vec(), &Vec::new());
    assert!(matches!(r, Err(StoreError::BadDocumentTable)));
}

#[test]
fn malformed_term_table_is_refused() {
    let r = load_corpus(&Vec::new(), &b"\"id\",\"term\",notanumber,0\n".to_vec());
    assert!(matches!(r, Err(StoreError::BadTermTable)));
}

#[test]
fn oversized_length_column_is_refused() {
    let row = b"\"s\",\"t\",\"x\",\"id\",\"99999999999999999999999999\"\n".to_vec();
    let r = load_corpus(&row, &Vec::new());
    assert!(matches!(r, Err(StoreError::BadDocumentTable)));
}

#[test]
fn stale_index_rows_are_skipped_silently() {
    let c = corpus_with(&[NOTE_CATS]);
    let doc_table = encode_documents(&c);
    let mut term_table = encode_index(&c);
    term_table.extend_from_slice(b"\"deadbeef\",\"ghost\",3,1\n");
    let loaded = load_corpus(&doc_table, &term_table).unwrap();
    assert_eq!(loaded.documents.len(), 1);
    assert_eq!(table_get(&loaded.terms, &b"ghost".to_vec()), None);
    let id = c.documents[0].0.clone();
    assert_eq!(table_get(&loaded.get(&id).unwrap().terms, &b"ghost".to_vec()), None);
}
