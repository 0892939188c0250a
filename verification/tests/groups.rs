use outlines_core::groups::{get_representative_byte, group_tokens, longer_first};
use outlines_core::vocabulary::Vocabulary;
use regex_automata::dfa::dense::DFA;
use std::cmp::Ordering;

#[test]
fn the_smallest_byte_represents_its_class() {
    let dfa = DFA::new("[b-d]x|a").expect("No automaton");
    let classes = dfa.byte_classes();
    assert_eq!(get_representative_byte(classes, 0), 0);
    for (byte, smallest) in [(b'a', b'a'), (b'b', b'b'), (b'c', b'b'), (b'd', b'b'), (b'x', b'x')] {
        assert_eq!(
            get_representative_byte(classes, classes.get(byte) as u32),
            smallest
        );
    }
}

#[test]
fn longer_tokens_go_first() {
    let (short, long, other) = (b"a".to_vec(), b"abc".to_vec(), b"b".to_vec());
    let ids = vec![0];
    assert_eq!(longer_first(&(&long, &ids), &(&short, &ids)), Ordering::Less);
    assert_eq!(longer_first(&(&short, &ids), &(&other, &ids)), Ordering::Equal);
    assert_eq!(longer_first(&(&short, &ids), &(&long, &ids)), Ordering::Greater);
}

#[test]
fn tokens_are_grouped_by_their_first_two_classes() {
    let dfa = DFA::new("[ab][cd]*").expect("No automaton");
    let classes = dfa.byte_classes();
    let mut vocabulary = Vocabulary::new(100);
    let tokens = ["ac", "bdcc", "a", "adc", "c", "cc", "d", ""];
    for (i, token) in tokens.iter().enumerate() {
        vocabulary
            .try_insert(token.as_bytes().to_vec(), i as u32)
            .expect("Insert failed");
    }
    let groups = group_tokens(&dfa, &vocabulary);
    assert_eq!(groups.len(), 2);
    for group in &groups {
        let mut lists: Vec<(u32, Vec<&[u8]>)> = group
            .members
            .iter()
            .map(|(second, entries)| {
                (*second, entries.iter().map(|entry| entry.0.as_slice()).collect())
            })
            .collect();
        lists.sort();
        let second = classes.get(b'c') as u32;
        if group.first_class == classes.get(b'a') as u32 {
            assert_eq!(
                lists,
                vec![
                    (0, vec![b"a".as_slice()]),
                    (second, vec![b"bdcc".as_slice(), b"adc", b"ac"]),
                ]
            );
        } else {
            assert_eq!(group.first_class, second);
            assert_eq!(lists.len(), 2);
            assert_eq!(lists[0].0, 0);
            assert_eq!(lists[0].1.len(), 2);
            assert_eq!(lists[1], (second, vec![b"cc".as_slice()]));
        }
    }
}

#[test]
fn a_token_with_several_identifiers_is_listed_once() {
    let dfa = DFA::new("a").expect("No automaton");
    let mut vocabulary = Vocabulary::new(100);
    for id in [1, 2, 1] {
        vocabulary.try_insert(b"ab".to_vec(), id).expect("Insert failed");
    }
    let groups = group_tokens(&dfa, &vocabulary);
    assert_eq!(groups.len(), 1);
    assert_eq!(groups[0].members.len(), 1);
    let entries = &groups[0].members[0].1;
    assert_eq!(entries.len(), 1);
    assert_eq!(entries[0], (&b"ab".to_vec(), &vec![1, 2, 1]));
}

#[test]
fn without_tokens_there_are_no_groups() {
    let dfa = DFA::new("a").expect("No automaton");
    let mut vocabulary = Vocabulary::new(100);
    vocabulary.try_insert(b"".to_vec(), 1).expect("Insert failed");
    assert!(group_tokens(&dfa, &vocabulary).is_empty());
}
