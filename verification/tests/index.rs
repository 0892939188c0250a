use outlines_core::index::Index;
use outlines_core::vocabulary::Vocabulary;
use rustc_hash::{FxHashMap as HashMap, FxHashSet as HashSet};

fn token_by_id(vocabulary: &Vocabulary, token_id: u32) -> Option<&Vec<u8>> {
    vocabulary.tokens().iter().find_map(|(token, ids)| {
        if ids.contains(&token_id) {
            Some(token)
        } else {
            None
        }
    })
}

fn generate_all_texts(index: &Index, vocabulary: &Vocabulary) -> HashSet<String> {
    let mut results = HashSet::default();
    let mut current_text = Vec::new();
    generate_from_state(
        index,
        vocabulary,
        index.initial_state(),
        &mut current_text,
        &mut results,
    );
    results
}

fn generate_from_state(
    index: &Index,
    vocabulary: &Vocabulary,
    state: u32,
    current_text: &mut Vec<u8>,
    results: &mut HashSet<String>,
) {
    if index.final_states().contains(&state) {
        results.insert(
            String::from_utf8(current_text.clone())
                .unwrap_or_else(|_| String::from("Invalid UTF-8")),
        );
    }

    if let Some(transitions_from_state) = index.transitions().get(&state) {
        for (&token_id, &next_state) in transitions_from_state {
            if token_id == index.eos_token_id() {
                continue;
            }
            if let Some(token_bytes) = token_by_id(vocabulary, token_id) {
                current_text.extend_from_slice(token_bytes);
                generate_from_state(index, vocabulary, next_state, current_text, results);
                current_text.truncate(current_text.len() - token_bytes.len());
            }
        }
    }
}

fn count_total_transitions(index: &Index) -> usize {
    index.transitions().values().map(|inner| inner.len()).sum()
}

#[test]
fn index_from_regex() {
    let regex = "0|[1-9][0-9]*";
    let eos_token_id = 4;
    let mut vocabulary = Vocabulary::new(eos_token_id);
    for (token, token_id) in [("blah", 0), ("1a", 1), ("2", 2), ("0", 3)] {
        vocabulary
            .try_insert(token.into(), token_id as u32)
            .expect("Insert failed");
    }
    let index = Index::new(regex, &vocabulary).expect("Index failed");
    let initial_state = index.initial_state();
    assert_eq!(initial_state, 40);
    assert_eq!(index.final_states(), &HashSet::from_iter([24, 48, 56]));
    assert!(!index.is_final_state(&initial_state));

    let expected = HashMap::from_iter([
        (24, HashMap::from_iter([(3, 24), (4, 24), (2, 24)])),
        (48, HashMap::from_iter([(4, 48)])),
        (40, HashMap::from_iter([(3, 48), (2, 56)])),
        (56, HashMap::from_iter([(3, 24), (4, 56), (2, 24)])),
    ]);
    assert_eq!(index.transitions(), &expected);

    let allowed_tokens = index
        .allowed_tokens(&initial_state)
        .expect("No allowed tokens");
    let token_id = allowed_tokens.first().expect("No first tokens");

    let state = 48;
    assert_eq!(index.next_state(&initial_state, token_id), Some(state));
    assert!(index.is_final_state(&state));

    assert_eq!(index.next_state(&state, &eos_token_id), None);
    assert_eq!(index.next_state(&state, token_id), None);
}

#[test]
fn index_from_regex_initital_in_allowed() {
    let regex = "`\\n(\\.\\n)?`\\n";
    let mut vocabulary = Vocabulary::new(104);
    for (token, token_id) in [("\n", 103), (".", 102), ("`", 101)] {
        vocabulary
            .try_insert(token.into(), token_id as u32)
            .expect("Insert failed");
    }

    let index = Index::new(regex, &vocabulary).expect("Index failed");
    let allowed = index
        .allowed_tokens(&index.initial_state())
        .expect("No allowed tokens");
    assert!(allowed.contains(&101));
}

#[test]
fn index_from_regex_multibyte() {
    let regex = "😇| [😈-😍][😇-😎]*";
    let mut vocabulary = Vocabulary::new(8);
    for (token, token_id) in [
        (" 😍", 5),
        ("blah", 0),
        ("😇", 2),
        ("😈a", 1),
        ("😍", 3),
    ] {
        vocabulary
            .try_insert(token.into(), token_id as u32)
            .expect("Insert failed");
    }
    for (token, token_id) in [
        (vec![32, 240, 159, 152], 7),
        (vec![32, 240, 159, 152, 141], 6),
        (vec![240, 159, 152, 141], 4),
    ] {
        vocabulary
            .try_insert(token, token_id as u32)
            .expect("Insert failed");
    }

    let index = Index::new(regex, &vocabulary).expect("Index failed");
    assert_eq!(index.final_states(), &HashSet::from_iter([208, 128]));

    let expected = HashMap::from_iter([
        (
            208,
            HashMap::from_iter([(3, 208), (8, 208), (4, 208), (2, 208)]),
        ),
        (
            80,
            HashMap::from_iter([(2, 128), (7, 192), (5, 208), (6, 208)]),
        ),
        (128, HashMap::from_iter([(8, 128)])),
    ]);
    assert_eq!(index.transitions(), &expected);
}

#[test]
fn test_index_text_generation_equivalence() {
    let mut vocab = Vocabulary::new(4);
    vocab.try_insert(b"a".to_vec(), 0 as u32).expect("Insert failed");
    vocab.try_insert(b"b".to_vec(), 1 as u32).expect("Insert failed");
    vocab.try_insert(b"ab".to_vec(), 2 as u32).expect("Insert failed");
    vocab.try_insert(b"abc".to_vec(), 3 as u32).expect("Insert failed");
    vocab.try_insert(b"ba".to_vec(), 5 as u32).expect("Insert failed");
    vocab.try_insert(b"bcd".to_vec(), 6 as u32).expect("Insert failed");

    let regex = r"(bc|b|bcd){5}(a|ab)";

    let index_new = Index::new(regex, &vocab).expect("Failed to create Index with new");
    let index_optimized =
        Index::new_optimized(regex, &vocab).expect("Failed to create Index with new_optimized");

    let texts_new = generate_all_texts(&index_new, &vocab);
    let texts_optimized = generate_all_texts(&index_optimized, &vocab);

    println!(
        "Index new: {} états, {} transitions",
        index_new.transitions().len(),
        count_total_transitions(&index_new)
    );
    println!(
        "Index optimized: {} états, {} transitions",
        index_optimized.transitions().len(),
        count_total_transitions(&index_optimized)
    );

    println!("Textes générés par new: {:?}", texts_new);
    println!("Textes générés par optimized: {:?}", texts_optimized);

    assert_eq!(
        texts_new, texts_optimized,
        "Les deux Index ne génèrent pas les mêmes textes !"
    );
    assert!(texts_new.contains("bbbbba"));
}

#[test]
fn test_minimal_index() {
    let mut vocab = Vocabulary::new(50256);
    vocab.try_insert(b"a".to_vec(), 0).unwrap();
    vocab.try_insert(b"b".to_vec(), 1).unwrap();
    vocab.try_insert(b"c".to_vec(), 2).unwrap();
    vocab.try_insert(b"d".to_vec(), 3).unwrap();
    vocab.try_insert(b"e".to_vec(), 4).unwrap();
    vocab.try_insert(b"f".to_vec(), 5).unwrap();
    vocab.try_insert(b"abcd".to_vec(), 6).unwrap();

    let regex = "abcdef$";

    let index = Index::new_optimized(regex, &vocab).unwrap();
    println!("États: {}", index.transitions().len());
    println!(
        "Transitions: {}",
        index.transitions().values().map(|t| t.len()).sum::<usize>()
    );
    println!("Transitions: {:?}", index.transitions());
    println!("Final states: {:?}", index.final_states());

    assert_eq!(index.transitions().len(), 7);
    assert_eq!(count_total_transitions(&index), 8);
    assert_eq!(index.final_states().len(), 1);
}
