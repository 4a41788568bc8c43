use rememberall::corpus::Corpus;
use rememberall::document::Document;
use rememberall::stemmer::term_of_token;
use rememberall::table::table_get;

const NOTE_CATS: &[u8] = b"# Cats\n*  Cats are great pets.";
const NOTE_DOGS: &[u8] = b"# Dogs\n*  Dogs are loyal pets.";
const ID_CATS: &[u8] = b"eb6df1b0040eea3be1a94399835d3c766215a3b1a32ce1a1fed55307cbc60b76";
const ID_DOGS: &[u8] = b"886f80985506b600ea22c9e8ef8fc1845f0701d4cb802578679bca65dc46e5ad";

fn corpus_with(notes: &[&[u8]]) -> Corpus {
    let mut c = Corpus::new();
    for (i, n) in notes.iter().enumerate() {
        let source = format!("/notes/{}.markdown", i).into_bytes();
        c.add_text(&source, &n.to_vec());
    }
    c.document_frequency();
    c
}

#[test]
fn single_note_segments_to_one_document() {
    let c = corpus_with(&[NOTE_CATS]);
    assert_eq!(c.documents.len(), 1);
    let d = &c.documents[0].1;
    assert_eq!(d.title, b"Cats".to_vec());
    assert_eq!(d.text, b"<ul>Cats are great pets.".to_vec());
    assert_eq!(d.length, 5);
}

#[test]
fn identity_is_the_digest_of_the_trimmed_body() {
    let c = corpus_with(&[NOTE_CATS]);
    assert_eq!(c.documents[0].0, ID_CATS.to_vec());
}

#[test]
fn reindexing_an_unchanged_note_is_idempotent() {
    let mut c = corpus_with(&[NOTE_CATS]);
    let id_before = c.documents[0].0.clone();
    c.add_text(&b"/notes/0.markdown".to_vec(), &NOTE_CATS.to_vec());
    assert_eq!(c.documents.len(), 1);
    assert_eq!(c.documents[0].0, id_before);
}

#[test]
fn front_matter_and_two_sections_yield_two_documents() {
    let content = b"stray front matter\n# Cats\n*  Cats are great pets.# Dogs\n*  Dogs are loyal pets.";
    let mut c = Corpus::new();
    c.add_text(&b"/notes/two.markdown".to_vec(), &content.to_vec());
    assert_eq!(c.documents.len(), 2);
    let ids: Vec<Vec<u8>> = c.documents.iter().map(|p| p.0.clone()).collect();
    assert!(ids.contains(&ID_CATS.to_vec()));
    assert!(ids.contains(&ID_DOGS.to_vec()));
}

#[test]
fn sections_with_empty_bodies_are_dropped() {
    let content = b"front# Title only, no list item\n# Another bare heading";
    let mut c = Corpus::new();
    c.add_text(&b"/notes/bare.markdown".to_vec(), &content.to_vec());
    assert_eq!(c.documents.len(), 0);
}

#[test]
fn term_counts_are_stemmed_and_lowercased() {
    let c = corpus_with(&[NOTE_CATS]);
    let d = &c.documents[0].1;
    assert_eq!(table_get(&d.terms, &b"cat".to_vec()), Some(2));
    assert_eq!(table_get(&d.terms, &b"are".to_vec()), Some(1));
    assert_eq!(table_get(&d.terms, &b"great".to_vec()), Some(1));
    assert_eq!(table_get(&d.terms, &b"pet".to_vec()), Some(1));
    assert_eq!(table_get(&d.terms, &b"cats".to_vec()), None);
    assert_eq!(d.terms.len(), 4);
}

#[test]
fn stemmer_really_stems() {
    assert_eq!(term_of_token(&b"fruitlessly".to_vec()), b"fruitless".to_vec());
    assert_eq!(term_of_token(&b"Cats.".to_vec()), b"cat".to_vec());
    assert_eq!(term_of_token(&b"pets,".to_vec()), b"pet".to_vec());
}

#[test]
fn document_frequency_counts_documents_not_occurrences() {
    let c = corpus_with(&[NOTE_CATS, NOTE_DOGS]);
    // "pet" occurs once in each document, "cat" twice in one document
    assert_eq!(table_get(&c.terms, &b"pet".to_vec()), Some(2));
    assert_eq!(table_get(&c.terms, &b"are".to_vec()), Some(2));
    assert_eq!(table_get(&c.terms, &b"cat".to_vec()), Some(1));
    assert_eq!(table_get(&c.terms, &b"dog".to_vec()), Some(1));
}

#[test]
fn display_text_restores_list_markup() {
    let d = Document {
        title: b"t".to_vec(),
        source: b"s".to_vec(),
        text: b"<ul>first<br><ul>second<br>wrapped".to_vec(),
        terms: Vec::new(),
        length: 0,
    };
    assert_eq!(
        d.display_text(),
        b"*   first\n    *   second\n       wrapped".to_vec()
    );
}
