use outlines_core::index::Index;
use outlines_core::primitives::Error;
use outlines_core::vocabulary::Vocabulary;
use regex_automata::dfa::dense::DFA;

fn vocabulary() -> Vocabulary {
    let mut vocabulary = Vocabulary::new(1);
    vocabulary.try_insert(b"a".to_vec(), 0).expect("Insert failed");
    vocabulary
}

#[test]
fn pattern_without_automaton() {
    for regex in ["(", "a{2,1}", "[", "\\ba"] {
        assert!(matches!(
            Index::new(regex, &vocabulary()),
            Err(Error::IndexDfaError(_))
        ));
        assert!(matches!(
            Index::new_optimized(regex, &vocabulary()),
            Err(Error::IndexDfaError(_))
        ));
    }
}

#[test]
fn automaton_without_start_state() {
    let regex = "^a";
    assert!(matches!(
        Index::new(regex, &vocabulary()),
        Err(Error::DfaHasNoStartState)
    ));
    assert!(matches!(
        Index::new_optimized(regex, &vocabulary()),
        Err(Error::DfaHasNoStartState)
    ));
    let dfa = DFA::new(regex).expect("No automaton");
    assert!(matches!(
        Index::from_dfa(&dfa, &vocabulary()),
        Err(Error::DfaHasNoStartState)
    ));
    assert!(matches!(
        Index::from_dfa_optimized(&dfa, &vocabulary()),
        Err(Error::DfaHasNoStartState)
    ));
}

#[test]
fn end_of_sequence_cannot_be_inserted() {
    let mut vocabulary = vocabulary();
    assert!(matches!(
        vocabulary.try_insert(b"b".to_vec(), 1),
        Err(Error::EOSTokenDisallowed)
    ));
    assert_eq!(vocabulary.tokens().len(), 1);
}

#[test]
fn the_reported_error_is_that_of_the_pattern() {
    for regex in ["(", "a{2,1}", "[", "\\ba"] {
        let expected = format!("{:?}", DFA::new(regex).expect_err("An automaton"));
        for index in [
            Index::new(regex, &vocabulary()),
            Index::new_optimized(regex, &vocabulary()),
            Index::from_compiled(DFA::new(regex), &vocabulary()),
            Index::from_compiled_optimized(DFA::new(regex), &vocabulary()),
        ] {
            match index {
                Err(Error::IndexDfaError(reason)) => assert_eq!(format!("{:?}", reason), expected),
                other => panic!("{:?}", other),
            }
        }
    }
}

#[test]
fn the_vocabulary_causes_no_error() {
    let empty = Vocabulary::new(0);
    for regex in ["", "a", "[0-9]*"] {
        let index = Index::new(regex, &empty).expect("Index failed");
        let same = Index::from_compiled(DFA::new(regex), &empty).expect("Index failed");
        assert_eq!(index, same);
        let optimized = Index::new_optimized(regex, &empty).expect("Index failed");
        assert_eq!(optimized.initial_state(), 0);
        assert_eq!(optimized.is_final_state(&0), index.is_final_state(&index.initial_state()));
        let same = Index::from_compiled_optimized(DFA::new(regex), &empty).expect("Index failed");
        assert_eq!(optimized, same);
    }
}
