use outlines_core::automaton::{accepts, keeps, walk};
use regex_automata::dfa::dense::DFA;
use regex_automata::dfa::Automaton;
use regex_automata::Anchored;

fn automaton(regex: &str) -> (DFA<Vec<u32>>, u32) {
    let dfa = DFA::new(regex).expect("No automaton");
    let start = dfa
        .universal_start_state(Anchored::Yes)
        .expect("No start state")
        .as_u32();
    (dfa, start)
}

#[test]
fn reading_nothing_stays() {
    let (dfa, start) = automaton("abc");
    assert_eq!(walk(&dfa, start, b""), Some(start));
}

#[test]
fn reading_in_two_steps() {
    let (dfa, start) = automaton("abc");
    let middle = walk(&dfa, start, b"ab").expect("Stopped");
    assert_ne!(middle, start);
    assert_eq!(walk(&dfa, middle, b"c"), walk(&dfa, start, b"abc"));
    assert_eq!(walk(&dfa, start, b"ac"), None);
    assert_eq!(walk(&dfa, start, b"acb"), None);
}

#[test]
fn only_whole_matches_are_accepted() {
    let (dfa, start) = automaton("ab?");
    assert!(!accepts(&dfa, start));
    for text in ["a", "ab"] {
        let state = walk(&dfa, start, text.as_bytes()).expect("Stopped");
        assert!(accepts(&dfa, state));
        assert!(keeps(&dfa, state));
    }
}

#[test]
fn text_behind_a_match_is_not_kept() {
    let (dfa, start) = automaton("ab");
    let state = walk(&dfa, start, b"ab").expect("Stopped");
    assert!(accepts(&dfa, state));
    // The match is noticed one byte late.
    let behind = walk(&dfa, start, b"abx").expect("Stopped");
    assert!(!accepts(&dfa, behind));
    assert!(!keeps(&dfa, behind));
    assert_eq!(walk(&dfa, start, b"abxy"), None);
}
