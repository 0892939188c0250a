use outlines_core::vocabulary::Vocabulary;

#[test]
fn a_new_vocabulary_is_empty() {
    let vocabulary = Vocabulary::new(3);
    assert_eq!(vocabulary.eos_token_id(), 3);
    assert!(vocabulary.tokens().is_empty());
}

#[test]
fn identifiers_stay_in_order() {
    let mut vocabulary = Vocabulary::new(3);
    for id in [7, 2, 7, 5] {
        vocabulary.try_insert(b"a".to_vec(), id).expect("Insert failed");
    }
    vocabulary.try_insert(b"".to_vec(), 0).expect("Insert failed");
    assert_eq!(vocabulary.tokens().len(), 2);
    assert_eq!(vocabulary.tokens()[&b"a".to_vec()], vec![7, 2, 7, 5]);
    assert_eq!(vocabulary.tokens()[&b"".to_vec()], vec![0]);
}

#[test]
fn tokens_can_be_given_at_once() {
    let mut tokens = rustc_hash::FxHashMap::default();
    tokens.insert(b"a".to_vec(), vec![3]);
    let vocabulary = Vocabulary::from_tokens(3, tokens.clone());
    assert_eq!(vocabulary.eos_token_id(), 3);
    assert_eq!(vocabulary.tokens(), &tokens);
}
