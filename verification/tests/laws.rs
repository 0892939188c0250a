use outlines_core::automaton::{accepts, walk};
use outlines_core::index::Index;
use outlines_core::vocabulary::Vocabulary;
use regex_automata::dfa::dense::DFA;
use regex_automata::dfa::Automaton;
use regex_automata::Anchored;
use rustc_hash::{FxHashMap, FxHashSet};

const PATTERNS: [&str; 8] = [
    "[0-9]+",
    "0|[1-9][0-9]*",
    "(ab|a)(c|bcd)*",
    "a*",
    "a{2,4}b?$",
    "(bc|b|bcd){2}(a|ab)",
    ".*",
    "(a|b)*?c",
];

const TOKENS: [&str; 15] = [
    "", "0", "1", "10", "12", "a", "aa", "ab", "abc", "b", "bc", "bcd", "c", "cab", "d",
];

fn vocabulary() -> Vocabulary {
    let mut vocabulary = Vocabulary::new(100);
    for (i, token) in TOKENS.iter().enumerate() {
        vocabulary
            .try_insert(token.as_bytes().to_vec(), i as u32)
            .expect("Insert failed");
    }
    vocabulary
}

fn indexes(regex: &str) -> (Index, Index) {
    let vocabulary = vocabulary();
    (
        Index::new(regex, &vocabulary).expect("Index failed"),
        Index::new_optimized(regex, &vocabulary).expect("Index failed"),
    )
}

/// The texts of at most four bytes that an index generates.
fn short_texts(index: &Index) -> FxHashSet<String> {
    let mut texts = FxHashSet::default();
    let mut seen = FxHashSet::from_iter([(index.initial_state(), String::new())]);
    let mut pending = vec![(index.initial_state(), String::new())];
    while let Some((state, text)) = pending.pop() {
        if index.is_final_state(&state) {
            texts.insert(text.clone());
        }
        for (i, token) in TOKENS.iter().enumerate() {
            if text.len() + token.len() > 4 {
                continue;
            }
            if let Some(next) = index.next_state(&state, &(i as u32)) {
                let reached = (next, format!("{}{}", text, token));
                if seen.insert(reached.clone()) {
                    pending.push(reached);
                }
            }
        }
    }
    texts
}

#[test]
fn generated_texts_are_matches() {
    for regex in PATTERNS {
        let dfa = DFA::new(regex).expect("No automaton");
        let start = dfa
            .universal_start_state(Anchored::Yes)
            .expect("No start state")
            .as_u32();
        let (index, optimized) = indexes(regex);
        for texts in [short_texts(&index), short_texts(&optimized)] {
            for text in texts {
                let state = walk(&dfa, start, text.as_bytes()).expect("Stopped");
                assert!(accepts(&dfa, state));
            }
        }
    }
}

#[test]
fn both_indexes_generate_the_same_texts() {
    for regex in PATTERNS {
        let (index, optimized) = indexes(regex);
        assert_eq!(short_texts(&index), short_texts(&optimized), "{}", regex);
    }
    let (index, _) = indexes("[0-9]+");
    let texts = short_texts(&index);
    assert!(texts.contains("1012") && texts.contains("0") && texts.contains("001"));
    assert!(!texts.contains(""));
}

#[test]
fn the_index_is_unique() {
    for regex in PATTERNS {
        assert_eq!(indexes(regex).0, indexes(regex).0);
        let dfa = DFA::new(regex).expect("No automaton");
        let from_dfa = Index::from_dfa(&dfa, &vocabulary()).expect("Index failed");
        assert_eq!(from_dfa, indexes(regex).0);
    }
}

#[test]
fn final_states_allow_the_end() {
    for regex in PATTERNS {
        let (index, optimized) = indexes(regex);
        for index in [index, optimized] {
            for (state, row) in index.transitions() {
                assert_eq!(row.contains_key(&100), index.is_final_state(state));
                assert_eq!(index.next_state(state, &100), None);
                if index.is_final_state(state) {
                    assert_eq!(row[&100], *state);
                }
            }
            for state in index.final_states() {
                assert!(index.transitions().contains_key(state));
            }
        }
    }
}

#[test]
fn allowed_tokens_lead_on() {
    for regex in PATTERNS {
        let (index, optimized) = indexes(regex);
        for index in [index, optimized] {
            for state in index.transitions().keys() {
                let allowed = index.allowed_tokens(state).expect("No allowed tokens");
                for id in 0..101 {
                    let leads = index.next_state(state, &id).is_some();
                    assert_eq!(leads, allowed.contains(&id) && id != 100);
                }
            }
        }
    }
}

#[test]
fn optimized_transitions_correspond() {
    for regex in PATTERNS {
        let (index, optimized) = indexes(regex);
        let mut numbers = FxHashMap::from_iter([(index.initial_state(), 0)]);
        let mut pending = vec![index.initial_state()];
        while let Some(state) = pending.pop() {
            let number = numbers[&state];
            assert_eq!(index.is_final_state(&state), optimized.is_final_state(&number));
            for id in 1..TOKENS.len() as u32 {
                match (index.next_state(&state, &id), optimized.next_state(&number, &id)) {
                    (None, None) => {}
                    (Some(to), Some(target)) => match numbers.get(&to) {
                        Some(known) => assert_eq!(*known, target),
                        None => {
                            numbers.insert(to, target);
                            pending.push(to);
                        }
                    },
                    _ => panic!("{} differs in state {} on token {}", regex, state, id),
                }
            }
        }
        let used: FxHashSet<u32> = numbers.values().cloned().collect();
        assert_eq!(used.len(), numbers.len());
        assert_eq!(used, FxHashSet::from_iter(0..numbers.len() as u32));
    }
}

#[test]
fn optimized_indexes_differ_in_numbers_alone() {
    for regex in PATTERNS {
        let dfa = DFA::new(regex).expect("No automaton");
        let one = Index::from_dfa_optimized(&dfa, &vocabulary()).expect("Index failed");
        let (_, other) = indexes(regex);
        assert_eq!(one.transitions().len(), other.transitions().len());
        assert_eq!(one.final_states().len(), other.final_states().len());
        assert_eq!(short_texts(&one), short_texts(&other));
    }
}
