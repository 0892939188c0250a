use outlines_core::index::Index;
use outlines_core::vocabulary::Vocabulary;
use rustc_hash::{FxHashMap, FxHashSet};

#[test]
fn an_index_as_text() {
    let index = Index::from_parts(
        7,
        FxHashSet::default(),
        FxHashMap::from_iter([(7, FxHashMap::from_iter([(10, 4294967295)]))]),
        0,
    );
    assert_eq!(
        index.to_text(),
        "Index object with transitions:\n7 -> {\n    10: 4294967295,\n}\n"
    );
}

#[test]
fn an_index_without_transitions_as_text() {
    let index = Index::from_parts(0, FxHashSet::default(), FxHashMap::default(), 0);
    assert_eq!(index.to_text(), "Index object with transitions:\n");
}

#[test]
fn a_state_without_transitions_as_text() {
    let index = Index::from_parts(
        0,
        FxHashSet::default(),
        FxHashMap::from_iter([(105, FxHashMap::default())]),
        0,
    );
    assert_eq!(index.to_text(), "Index object with transitions:\n105 -> {}\n");
}

#[test]
fn every_state_is_shown() {
    let mut vocabulary = Vocabulary::new(4);
    for (token, id) in [("blah", 0), ("1a", 1), ("2", 2), ("0", 3)] {
        vocabulary
            .try_insert(token.as_bytes().to_vec(), id)
            .expect("Insert failed");
    }
    let index = Index::new("0|[1-9][0-9]*", &vocabulary).expect("Index failed");
    let mut expected = String::from("Index object with transitions:\n");
    for (state, row) in index.transitions() {
        expected.push_str(&format!("{:?} -> {:#?}\n", state, row));
    }
    assert_eq!(index.to_text(), expected);
    assert!(index.to_text().contains("48 -> {\n    4: 48,\n}\n"));
}

#[test]
fn a_clone_is_equal() {
    let mut vocabulary = Vocabulary::new(1);
    vocabulary.try_insert(b"a".to_vec(), 0).expect("Insert failed");
    let index = Index::new("a+", &vocabulary).expect("Index failed");
    assert_eq!(index.clone(), index);
    let rebuilt = Index::from_parts(
        index.initial_state(),
        index.final_states().clone(),
        index.transitions().clone(),
        index.eos_token_id(),
    );
    assert_eq!(rebuilt, index);
    let other = Index::new("aa", &vocabulary).expect("Index failed");
    assert_ne!(other, index);
}
