use jmap_core::fulltext::{term_hash, tokenize, TermIndex};
use jmap_core::store::JMAPStore;
use jmap_core::types::Collection;
use jmap_core::update::{
    DocumentBatch, FieldOptions, TextValue, UpdateField, WriteAction, WriteBatch,
};

fn phrase_terms(text: &str) -> Vec<u64> {
    tokenize(text).iter().map(|w| term_hash(w)).collect()
}

#[test]
fn phrase_search_positions() {
    // Index one document with a full-text body, then match phrases against
    // its positional term index.
    let mut store = JMAPStore::new();
    let mut batch = WriteBatch::new(1);
    batch.batches.push(DocumentBatch {
        collection: Collection::Mail,
        action: Some(WriteAction::Insert(0)),
        fields: vec![UpdateField::Text {
            field: 1,
            options: FieldOptions::Plain,
            value: TextValue::Full(String::from("the quick brown fox jumps")),
        }],
        log_action: Some(jmap_core::changelog::LogAction::Insert(0)),
    });
    store.write(&batch).unwrap();

    let tix = jmap_core::store::tix_rows_get(&store.term_indexes, (1, Collection::Mail, 0));
    assert_eq!(tix.entries.len(), 5);

    assert!(tix.match_phrase(&phrase_terms("quick brown")));
    assert!(!tix.match_phrase(&phrase_terms("brown quick")));
    assert!(!tix.match_phrase(&phrase_terms("quick fox")));
    assert!(tix.match_phrase(&phrase_terms("the quick brown fox jumps")));
}

#[test]
fn tokenizer_folds_and_splits() {
    let tokens = tokenize("The QUICK, brown-Fox!");
    let words: Vec<&[u8]> = tokens.iter().map(|t| t.as_slice()).collect();
    assert_eq!(
        words,
        vec![b"the".as_slice(), b"quick".as_slice(), b"brown".as_slice(), b"fox".as_slice()]
    );
}

#[test]
fn tokenizer_drops_overlong_runs() {
    let long = "x".repeat(26);
    let text = format!("small {} kept", long);
    let tokens = tokenize(&text);
    assert_eq!(tokens.len(), 2);
}

#[test]
fn term_index_empty_document() {
    let tix = TermIndex::new();
    assert!(tix.is_empty());
    assert!(!tix.match_phrase(&vec![1u64]));
}

#[test]
fn term_hash_differs_per_word() {
    let a = term_hash(&b"quick".to_vec());
    let b = term_hash(&b"brown".to_vec());
    assert_ne!(a, b);
}
