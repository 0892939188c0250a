use outlines_core::index::Index;
use outlines_core::vocabulary::Vocabulary;
use rustc_hash::FxHashSet;

fn token_by_id(vocabulary: &Vocabulary, token_id: u32) -> Option<&Vec<u8>> {
    vocabulary.tokens().iter().find_map(|(token, ids)| {
        if ids.contains(&token_id) {
            Some(token)
        } else {
            None
        }
    })
}

fn vocabulary_of(eos: u32, tokens: &[(&str, u32)]) -> Vocabulary {
    let mut vocabulary = Vocabulary::new(eos);
    for (token, id) in tokens {
        vocabulary
            .try_insert(token.as_bytes().to_vec(), *id)
            .expect("Insert failed");
    }
    vocabulary
}

fn reconstruct_email(index: &Index, vocabulary: &Vocabulary, email: &str) -> bool {
    let email_bytes = email.as_bytes();
    let mut current_state = index.initial_state();
    let mut position = 0;
    while position < email_bytes.len() {
        let mut found = false;
        for token_id in index.allowed_tokens(&current_state).unwrap_or_default() {
            let token = match token_by_id(vocabulary, token_id) {
                Some(token) => token,
                None => continue,
            };
            if email_bytes[position..].starts_with(token) {
                current_state = index
                    .next_state(&current_state, &token_id)
                    .expect("Allowed token leads nowhere");
                position += token.len();
                found = true;
                break;
            }
        }
        if !found {
            return false;
        }
    }
    index.is_final_state(&current_state)
}

#[test]
fn email_reconstruction() {
    let mut vocabulary = Vocabulary::new(50256);
    let mut id = 0;
    for byte in 33u8..127 {
        vocabulary.try_insert(vec![byte], id).expect("Insert failed");
        id += 1;
    }
    for word in [
        "machin", "truc", "bid", "ule", "com", "user", "123", "example", "org", "john", "doe",
        "test", "domain", "co", "uk", "+-",
    ] {
        vocabulary
            .try_insert(word.as_bytes().to_vec(), id)
            .expect("Insert failed");
        id += 1;
    }
    let regex = r#"(?:[a-z0-9!#$%&'*+/=?^_`{|}~-]+(?:\.[a-z0-9!#$%&'*+/=?^_`{|}~-]+)*|"(?:[\x01-\x08\x0b\x0c\x0e-\x1f\x21\x23-\x5b\x5d-\x7f]|\\[\x01-\x09\x0b\x0c\x0e-\x7f])*")@(?:(?:[a-z0-9](?:[a-z0-9-]*[a-z0-9])?\.)+[a-z0-9](?:[a-z0-9-]*[a-z0-9])?|\[(?:(?:(2(5[0-5]|[0-4][0-9])|1[0-9][0-9]|[1-9]?[0-9]))\.){3}(?:(2(5[0-5]|[0-4][0-9])|1[0-9][0-9]|[1-9]?[0-9])|[a-z0-9-]*[a-z0-9]:(?:[\x01-\x08\x0b\x0c\x0e-\x1f\x21-\x5a\x53-\x7f]|\\[\x01-\x09\x0b\x0c\x0e-\x7f])+)\])$"#;

    let index_new = Index::new(regex, &vocabulary).expect("Failed to create Index with new");
    let index_optimized = Index::new_optimized(regex, &vocabulary)
        .expect("Failed to create Index with new_optimized");

    for email in [
        "machin.truc@truc-bidule.com",
        "user123@example.org",
        "john.doe+test@domain.co.uk",
        "a@b.com",
    ] {
        assert!(
            reconstruct_email(&index_new, &vocabulary, email),
            "Index new failed to reconstruct '{}'",
            email
        );
        assert!(
            reconstruct_email(&index_optimized, &vocabulary, email),
            "Index optimized failed to reconstruct '{}'",
            email
        );
    }
    for text in ["a@b", "a.@b.com", "@b.com", "a@b.com."] {
        assert!(!reconstruct_email(&index_new, &vocabulary, text));
        assert!(!reconstruct_email(&index_optimized, &vocabulary, text));
    }
}

#[test]
fn states_are_numbered_from_zero() {
    let vocabulary = vocabulary_of(3, &[("a", 0), ("b", 1), ("ab", 2)]);
    let index = Index::new_optimized("ab", &vocabulary).expect("Index failed");
    assert_eq!(index.initial_state(), 0);
    assert_eq!(index.eos_token_id(), 3);

    let after_a = index.next_state(&0, &0).expect("a is allowed");
    let after_ab = index.next_state(&0, &2).expect("ab is allowed");
    assert_eq!(index.next_state(&0, &1), None);
    assert_eq!(index.next_state(&after_a, &1), Some(after_ab));
    assert_eq!(
        FxHashSet::from_iter([0, after_a, after_ab]),
        FxHashSet::from_iter([0, 1, 2])
    );
    assert_eq!(index.final_states(), &FxHashSet::from_iter([after_ab]));
    assert_eq!(index.allowed_tokens(&after_ab), Some(vec![3]));
    assert_eq!(index.transitions()[&after_ab][&3], after_ab);
    assert_eq!(index.transitions().len(), 3);
}

#[test]
fn a_match_may_go_on() {
    let vocabulary = vocabulary_of(2, &[("1", 0), ("2", 1)]);
    let index = Index::new_optimized("[0-9]+", &vocabulary).expect("Index failed");
    let mut state = index.initial_state();
    assert!(!index.is_final_state(&state));
    for id in [0, 1, 1, 0] {
        state = index.next_state(&state, &id).expect("Digit is allowed");
        assert!(index.is_final_state(&state));
        let mut allowed = index.allowed_tokens(&state).expect("No allowed tokens");
        allowed.sort();
        assert_eq!(allowed, vec![0, 1, 2]);
    }
}

#[test]
fn empty_tokens_are_not_allowed() {
    let vocabulary = vocabulary_of(2, &[("", 0), ("a", 1)]);
    let index = Index::new("a", &vocabulary).expect("Index failed");
    let start = index.initial_state();
    assert_eq!(index.next_state(&start, &0), Some(start));

    let optimized = Index::new_optimized("a", &vocabulary).expect("Index failed");
    assert_eq!(optimized.allowed_tokens(&0), Some(vec![1]));
    assert_eq!(optimized.next_state(&0, &0), None);
    assert_eq!(optimized.next_state(&0, &1), Some(1));
}

#[test]
fn the_shortest_of_a_group_decides() {
    // All three tokens start with bytes of the same two classes and share an identifier.
    for order in [[0, 1, 2], [2, 1, 0], [1, 2, 0]] {
        let tokens = ["aabb", "aa", "aab"];
        let mut vocabulary = Vocabulary::new(9);
        for i in order {
            vocabulary
                .try_insert(tokens[i].as_bytes().to_vec(), 5)
                .expect("Insert failed");
        }
        vocabulary.try_insert(b"b".to_vec(), 6).expect("Insert failed");
        let index = Index::new_optimized("aabb", &vocabulary).expect("Index failed");
        let mut state = index.next_state(&0, &5).expect("Allowed");
        assert!(!index.is_final_state(&state));
        state = index.next_state(&state, &6).expect("Allowed");
        assert!(!index.is_final_state(&state));
        state = index.next_state(&state, &6).expect("Allowed");
        assert!(index.is_final_state(&state));
    }
}

#[test]
fn bytes_of_the_first_class_come_second() {
    // The zero byte is in the first class, as is every byte that the pattern does not mention.
    let mut vocabulary = Vocabulary::new(9);
    for (token, id) in [(vec![97], 0), (vec![97, 0], 1), (vec![97, 98], 2), (vec![0], 3)] {
        vocabulary.try_insert(token, id).expect("Insert failed");
    }
    let index = Index::new_optimized("a(\\x00|b)?", &vocabulary).expect("Index failed");
    let mut allowed = index.allowed_tokens(&0).expect("No allowed tokens");
    allowed.sort();
    assert_eq!(allowed, vec![0, 1, 2]);
    let state = index.next_state(&0, &0).expect("Allowed");
    assert!(index.is_final_state(&state));
    let end = index.next_state(&state, &3).expect("Allowed");
    assert!(index.is_final_state(&end));
    assert_eq!(index.next_state(&0, &1), Some(end));
}

#[test]
fn end_of_sequence_tokens_are_skipped() {
    let mut tokens = rustc_hash::FxHashMap::default();
    tokens.insert(b"a".to_vec(), vec![0, 7]);
    tokens.insert(b"b".to_vec(), vec![1, 2]);
    let vocabulary = Vocabulary::from_tokens(7, tokens);
    for index in [
        Index::new("a|b", &vocabulary).expect("Index failed"),
        Index::new_optimized("a|b", &vocabulary).expect("Index failed"),
    ] {
        let start = index.initial_state();
        let mut allowed = index.allowed_tokens(&start).expect("No allowed tokens");
        allowed.sort();
        assert_eq!(allowed, vec![1, 2]);
        let end = index.next_state(&start, &1).expect("Allowed");
        assert_eq!(index.next_state(&start, &2), Some(end));
        assert_eq!(index.allowed_tokens(&end), Some(vec![7]));
        assert_eq!(index.next_state(&end, &7), None);
    }
}

#[test]
fn a_pattern_that_no_token_fits() {
    let vocabulary = vocabulary_of(1, &[("x", 0)]);
    for index in [
        Index::new("a", &vocabulary).expect("Index failed"),
        Index::new_optimized("a", &vocabulary).expect("Index failed"),
    ] {
        assert!(index.transitions().is_empty());
        assert!(index.final_states().is_empty());
        assert_eq!(index.allowed_tokens(&index.initial_state()), None);
        assert_eq!(index.next_state(&index.initial_state(), &0), None);
    }
}

#[test]
fn the_empty_text_is_a_match() {
    let vocabulary = vocabulary_of(1, &[("a", 0)]);
    for index in [
        Index::new("a*", &vocabulary).expect("Index failed"),
        Index::new_optimized("a*", &vocabulary).expect("Index failed"),
    ] {
        let start = index.initial_state();
        assert!(index.is_final_state(&start));
        let mut allowed = index.allowed_tokens(&start).expect("No allowed tokens");
        allowed.sort();
        assert_eq!(allowed, vec![0, 1]);
        assert_eq!(index.transitions()[&start][&1], start);
    }
}
