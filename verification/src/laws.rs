//! What holds of every index: the texts that it generates and the tokens that it allows.

use crate::automaton::DenseDfa;
use crate::graph::{lemma_reached_within, lemma_reaches_further, lemma_reaches_itself, reaches};
use crate::groups::grouped_tokens;
use crate::index::{is_index, is_outcome, leads, offers, token_graph, Index, IndexView};
use crate::optimized::{
    admits, decides, is_numbered_index, is_numbered_row, is_optimized_index, is_optimized_outcome,
    kept_graph,
};
use crate::primitives::{Error, StateId, TokenId};
use crate::vocabulary::VocabularyView;
use regex_automata::dfa::dense::BuildError;
use vstd::prelude::*;

verus! {

/// The text that a sequence of tokens stands for.
pub open spec fn joined(tokens: Seq<Seq<u8>>) -> Seq<u8>
    decreases tokens.len(),
{
    if tokens.len() == 0 {
        Seq::empty()
    } else {
        joined(tokens.drop_last()) + tokens.last()
    }
}

/// Whether `ids` are identifiers of `tokens`, one for one.
pub open spec fn names(
    vocabulary: VocabularyView,
    ids: Seq<TokenId>,
    tokens: Seq<Seq<u8>>,
) -> bool {
    &&& ids.len() == tokens.len()
    &&& forall|i: int| 0 <= i < ids.len() ==> vocabulary.bears(#[trigger] tokens[i], ids[i])
}

/// Whether `token` stands for text and has an identifier.
pub open spec fn has_name(vocabulary: VocabularyView, token: Seq<u8>) -> bool {
    exists|id: TokenId| vocabulary.bears(token, id)
}

/// Whether each of `tokens` stands for text and has an identifier.
pub open spec fn nameable(vocabulary: VocabularyView, tokens: Seq<Seq<u8>>) -> bool {
    forall|i: int| 0 <= i < tokens.len() ==> has_name(vocabulary, #[trigger] tokens[i])
}

/// The state in which an index is after `ids`, if it allows all of them in turn.
pub open spec fn run(index: IndexView, ids: Seq<TokenId>) -> Option<StateId>
    decreases ids.len(),
{
    if ids.len() == 0 {
        Some(index.initial_state)
    } else {
        match run(index, ids.drop_last()) {
            None => None,
            Some(state) => index.next(state, ids.last()),
        }
    }
}

/// Whether `index` generates `text`: it allows identifiers of tokens that make up the text and
/// ends in a final state.
pub open spec fn generates(index: IndexView, vocabulary: VocabularyView, text: Seq<u8>) -> bool {
    exists|ids: Seq<TokenId>, tokens: Seq<Seq<u8>>| #[trigger]
        names(vocabulary, ids, tokens) && joined(tokens) == text && (run(index, ids) matches Some(
            state,
        ) && index.final_states.contains(state))
}

/// The state in which an automaton is after `tokens`, if each of them may be read in turn.
pub open spec fn advance(dfa: DenseDfa, start: StateId, tokens: Seq<Seq<u8>>) -> Option<StateId>
    decreases tokens.len(),
{
    if tokens.len() == 0 {
        Some(start)
    } else {
        match advance(dfa, start, tokens.drop_last()) {
            None => None,
            Some(state) => if admits(dfa, state, tokens.last()) {
                dfa.walk(state, tokens.last())
            } else {
                None
            },
        }
    }
}

/// Whether `tokens` may be read in turn and together are a match.
pub open spec fn accepted(dfa: DenseDfa, start: StateId, tokens: Seq<Seq<u8>>) -> bool {
    advance(dfa, start, tokens) matches Some(state) && dfa.accepts(state)
}

/// Whether no token is empty.
pub(crate) open spec fn solid(tokens: Seq<Seq<u8>>) -> bool {
    forall|i: int| 0 <= i < tokens.len() ==> (#[trigger] tokens[i]).len() > 0
}

/// The tokens that are not empty.
spec fn solid_part(tokens: Seq<Seq<u8>>) -> Seq<Seq<u8>>
    decreases tokens.len(),
{
    if tokens.len() == 0 {
        Seq::empty()
    } else if tokens.last().len() == 0 {
        solid_part(tokens.drop_last())
    } else {
        solid_part(tokens.drop_last()).push(tokens.last())
    }
}

/// Empty tokens change neither the text nor the state.
proof fn lemma_solid_part(
    dfa: DenseDfa,
    vocabulary: VocabularyView,
    start: StateId,
    tokens: Seq<Seq<u8>>,
)
    ensures
        solid(solid_part(tokens)),
        joined(solid_part(tokens)) == joined(tokens),
        nameable(vocabulary, tokens) ==> nameable(vocabulary, solid_part(tokens)),
        advance(dfa, start, tokens) is Some ==> advance(dfa, start, solid_part(tokens)) == advance(
            dfa,
            start,
            tokens,
        ),
    decreases tokens.len(),
{
    if tokens.len() > 0 {
        let before = tokens.drop_last();
        let token = tokens.last();
        lemma_solid_part(dfa, vocabulary, start, before);
        if nameable(vocabulary, tokens) {
            assert forall|i: int| 0 <= i < before.len() implies has_name(
                vocabulary,
                #[trigger] before[i],
            ) by {
                assert(has_name(vocabulary, tokens[i]));
            }
            assert(has_name(vocabulary, tokens[tokens.len() - 1]));
        }
        if token.len() == 0 {
            assert(joined(before) + token =~= joined(before));
        } else {
            assert(solid_part(tokens).drop_last() =~= solid_part(before));
        }
    }
}

/// An index over the states of an automaton is in the state of the automaton.
pub(crate) proof fn lemma_run(
    dfa: DenseDfa,
    vocabulary: VocabularyView,
    start: StateId,
    index: IndexView,
    ids: Seq<TokenId>,
    tokens: Seq<Seq<u8>>,
)
    requires
        is_index(dfa, vocabulary, start, index),
        vocabulary.unambiguous(),
        names(vocabulary, ids, tokens),
    ensures
        run(index, ids) == advance(dfa, start, tokens),
        run(index, ids) matches Some(state) ==> reaches(
            token_graph(dfa, vocabulary),
            start,
            state,
        ),
    decreases ids.len(),
{
    let hop = token_graph(dfa, vocabulary);
    if ids.len() == 0 {
        lemma_reaches_itself(hop, start);
    } else {
        let id = ids.last();
        let token = tokens.last();
        assert forall|i: int| 0 <= i < ids.len() - 1 implies vocabulary.bears(
            #[trigger] tokens.drop_last()[i],
            ids.drop_last()[i],
        ) by {
            assert(vocabulary.bears(tokens[i], ids[i]));
        }
        lemma_run(dfa, vocabulary, start, index, ids.drop_last(), tokens.drop_last());
        assert(vocabulary.bears(tokens[ids.len() - 1], ids[ids.len() - 1]));
        if let Some(state) = run(index, ids.drop_last()) {
            if let Some(to) = index.next(state, id) {
                assert(index.allows(state, id));
                assert(offers(dfa, vocabulary, state, id, to));
            }
            if admits(dfa, state, token) {
                let to = dfa.walk(state, token).unwrap();
                assert(offers(dfa, vocabulary, state, id, to));
                assert(index.allows(state, id));
                assert(leads(dfa, vocabulary, state, token, to));
                lemma_reaches_further(hop, start, state, to);
            }
        }
    }
}

/// An index over numbered states is in the state of the automaton.
pub(crate) proof fn lemma_run_numbered(
    dfa: DenseDfa,
    vocabulary: VocabularyView,
    start: StateId,
    numbers: Map<StateId, StateId>,
    index: IndexView,
    ids: Seq<TokenId>,
    tokens: Seq<Seq<u8>>,
)
    requires
        is_numbered_index(dfa, vocabulary, start, numbers, index),
        vocabulary.unambiguous(),
        names(vocabulary, ids, tokens),
    ensures
        run(index, ids) is Some ==> advance(dfa, start, tokens) is Some,
        advance(dfa, start, tokens) is Some && solid(tokens) ==> run(index, ids) is Some,
        run(index, ids) matches Some(number) ==> {
            let state = advance(dfa, start, tokens).unwrap();
            numbers.contains_key(state) && numbers[state] == number
        },
    decreases ids.len(),
{
    let hop = kept_graph(dfa, vocabulary);
    if ids.len() == 0 {
        lemma_reaches_itself(hop, start);
    } else {
        let id = ids.last();
        let token = tokens.last();
        let pool = grouped_tokens(vocabulary);
        assert forall|i: int| 0 <= i < ids.len() - 1 implies vocabulary.bears(
            #[trigger] tokens.drop_last()[i],
            ids.drop_last()[i],
        ) by {
            assert(vocabulary.bears(tokens[i], ids[i]));
        }
        lemma_run_numbered(
            dfa,
            vocabulary,
            start,
            numbers,
            index,
            ids.drop_last(),
            tokens.drop_last(),
        );
        assert(vocabulary.bears(tokens[ids.len() - 1], ids[ids.len() - 1]));
        if solid(tokens) {
            assert forall|i: int| 0 <= i < tokens.len() - 1 implies (
            #[trigger] tokens.drop_last()[i]).len() > 0 by {
                assert(tokens[i].len() > 0);
            }
            assert(tokens[tokens.len() - 1].len() > 0);
        }
        if let Some(number) = run(index, ids.drop_last()) {
            let state = advance(dfa, start, tokens.drop_last()).unwrap();
            assert(numbers.contains_key(state));
            let row = index.row(number).remove(vocabulary.eos);
            assert(is_numbered_row(dfa, vocabulary, pool, numbers, state, row));
            if row.contains_key(id) {
                let word = choose|word: Seq<u8>| #[trigger]
                    decides(dfa, vocabulary, pool, state, id, word) && row[id]
                        == numbers[dfa.walk(state, word).unwrap()];
                assert(vocabulary.bears(word, id));
                assert(word == token);
                assert(hop(state, dfa.walk(state, token).unwrap()));
                lemma_reaches_further(hop, start, state, dfa.walk(state, token).unwrap());
            }
            if admits(dfa, state, token) && token.len() > 0 {
                assert(pool.contains(token));
                assert(row.contains_key(id));
            }
        }
    }
}

/// Picks an identifier for each of `tokens`.
spec fn some_names(vocabulary: VocabularyView, tokens: Seq<Seq<u8>>) -> Seq<TokenId> {
    Seq::new(tokens.len(), |i: int| choose|id: TokenId| vocabulary.bears(tokens[i], id))
}

proof fn lemma_named(vocabulary: VocabularyView, tokens: Seq<Seq<u8>>)
    ensures
        nameable(vocabulary, tokens) ==> names(
            vocabulary,
            some_names(vocabulary, tokens),
            tokens,
        ),
        forall|ids: Seq<TokenId>| #[trigger]
            names(vocabulary, ids, tokens) ==> nameable(vocabulary, tokens),
{
    let ids = some_names(vocabulary, tokens);
    if nameable(vocabulary, tokens) {
        assert forall|i: int| 0 <= i < ids.len() implies vocabulary.bears(
            #[trigger] tokens[i],
            ids[i],
        ) by {
            assert(has_name(vocabulary, tokens[i]));
        }
    }
}

/// An index, optimized or not, generates exactly the texts that some tokens make up of which each
/// may be read in turn and which together are a match.
pub proof fn law_generated_texts(
    dfa: DenseDfa,
    vocabulary: VocabularyView,
    start: StateId,
    index: IndexView,
    text: Seq<u8>,
)
    requires
        is_index(dfa, vocabulary, start, index) || is_optimized_index(
            dfa,
            vocabulary,
            start,
            index,
        ),
        vocabulary.unambiguous(),
    ensures
        generates(index, vocabulary, text) <==> exists|tokens: Seq<Seq<u8>>| #[trigger]
            nameable(vocabulary, tokens) && joined(tokens) == text && accepted(dfa, start, tokens),
{
    let plain = is_index(dfa, vocabulary, start, index);
    let numbers = choose|numbers: Map<StateId, StateId>|
        is_numbered_index(dfa, vocabulary, start, numbers, index);
    if generates(index, vocabulary, text) {
        let (ids, tokens) = choose|ids: Seq<TokenId>, tokens: Seq<Seq<u8>>| #[trigger]
            names(vocabulary, ids, tokens) && joined(tokens) == text && (run(
                index,
                ids,
            ) matches Some(state) && index.final_states.contains(state));
        if plain {
            lemma_run(dfa, vocabulary, start, index, ids, tokens);
        } else {
            lemma_run_numbered(dfa, vocabulary, start, numbers, index, ids, tokens);
        }
        lemma_named(vocabulary, tokens);
        assert(nameable(vocabulary, tokens));
    }
    if exists|tokens: Seq<Seq<u8>>| #[trigger]
        nameable(vocabulary, tokens) && joined(tokens) == text && accepted(dfa, start, tokens) {
        let all = choose|tokens: Seq<Seq<u8>>| #[trigger]
            nameable(vocabulary, tokens) && joined(tokens) == text && accepted(dfa, start, tokens);
        let tokens = solid_part(all);
        lemma_solid_part(dfa, vocabulary, start, all);
        let ids = some_names(vocabulary, tokens);
        lemma_named(vocabulary, tokens);
        if plain {
            lemma_run(dfa, vocabulary, start, index, ids, tokens);
        } else {
            lemma_run_numbered(dfa, vocabulary, start, numbers, index, ids, tokens);
        }
        assert(names(vocabulary, ids, tokens));
    }
}

/// Reading tokens in turn is reading the text that they make up.
proof fn lemma_advance_walks(dfa: DenseDfa, start: StateId, tokens: Seq<Seq<u8>>)
    ensures
        advance(dfa, start, tokens) is Some ==> dfa.walk(start, joined(tokens)) == advance(
            dfa,
            start,
            tokens,
        ),
    decreases tokens.len(),
{
    if tokens.len() > 0 {
        lemma_advance_walks(dfa, start, tokens.drop_last());
        dfa.lemma_walk_concat(start, joined(tokens.drop_last()), tokens.last());
    }
}

/// Every text that an index generates is a match as a whole.
pub proof fn law_generated_texts_match(
    dfa: DenseDfa,
    vocabulary: VocabularyView,
    start: StateId,
    index: IndexView,
    text: Seq<u8>,
)
    requires
        is_index(dfa, vocabulary, start, index) || is_optimized_index(
            dfa,
            vocabulary,
            start,
            index,
        ),
        vocabulary.unambiguous(),
        generates(index, vocabulary, text),
    ensures
        dfa.walk(start, text) matches Some(state) && dfa.accepts(state),
{
    law_generated_texts(dfa, vocabulary, start, index, text);
    let tokens = choose|tokens: Seq<Seq<u8>>| #[trigger]
        nameable(vocabulary, tokens) && joined(tokens) == text && accepted(dfa, start, tokens);
    lemma_advance_walks(dfa, start, tokens);
}

/// Two indexes of the same automaton and vocabulary, one of them optimized, generate the same
/// texts.
pub proof fn law_same_texts(
    dfa: DenseDfa,
    vocabulary: VocabularyView,
    start: StateId,
    index: IndexView,
    optimized: IndexView,
    text: Seq<u8>,
)
    requires
        is_index(dfa, vocabulary, start, index),
        is_optimized_index(dfa, vocabulary, start, optimized),
        vocabulary.unambiguous(),
    ensures
        generates(index, vocabulary, text) <==> generates(optimized, vocabulary, text),
{
    law_generated_texts(dfa, vocabulary, start, index, text);
    law_generated_texts(dfa, vocabulary, start, optimized, text);
}

/// Both ways of building an index fail for the same regular expressions, with the same error,
/// whatever the vocabularies hold.
pub proof fn law_same_errors(
    built: Result<DenseDfa, BuildError>,
    vocabularies: (VocabularyView, VocabularyView),
    outcome: Result<Index, Error>,
    optimized: Result<Index, Error>,
)
    requires
        is_outcome(built, vocabularies.0, outcome),
        is_optimized_outcome(built, vocabularies.1, optimized),
    ensures
        match outcome {
            Ok(_) => optimized is Ok,
            Err(error) => optimized == Err::<Index, Error>(error),
        },
{
}

/// Where no identifier belongs to two tokens, there is only one index of an automaton and a
/// vocabulary.
pub proof fn law_index_is_unique(
    dfa: DenseDfa,
    vocabulary: VocabularyView,
    start: StateId,
    one: IndexView,
    other: IndexView,
)
    requires
        is_index(dfa, vocabulary, start, one),
        is_index(dfa, vocabulary, start, other),
        vocabulary.unambiguous(),
    ensures
        one == other,
{
    assert forall|state: StateId, id: TokenId| #[trigger]
        one.allows(state, id) <==> other.allows(state, id) by {}
    assert forall|state: StateId| #[trigger]
        one.transitions.contains_key(state) implies other.transitions.contains_key(state) by {
        let id = choose|id: TokenId| one.allows(state, id);
        assert(other.allows(state, id));
    }
    assert forall|state: StateId| #[trigger]
        other.transitions.contains_key(state) implies one.transitions.contains_key(state) by {
        let id = choose|id: TokenId| other.allows(state, id);
        assert(one.allows(state, id));
    }
    assert forall|state: StateId| one.transitions.contains_key(
        state,
    ) implies #[trigger] one.transitions[state] =~= other.transitions[state] by {
        assert forall|id: TokenId| #[trigger] one.transitions[state].contains_key(
            id,
        ) <==> other.transitions[state].contains_key(id) by {
            assert(one.allows(state, id) <==> other.allows(state, id));
        }
        assert forall|id: TokenId| #[trigger] one.transitions[state].contains_key(
            id,
        ) implies one.transitions[state][id] == other.transitions[state][id] by {
            assert(one.allows(state, id));
            assert(other.allows(state, id));
        }
    }
    assert(one.transitions =~= other.transitions);
    assert(one.final_states =~= other.final_states);
}

/// The end of the sequence is allowed exactly in the final states, and leads nowhere.
pub proof fn law_end_of_sequence(
    dfa: DenseDfa,
    vocabulary: VocabularyView,
    start: StateId,
    index: IndexView,
    state: StateId,
)
    requires
        is_index(dfa, vocabulary, start, index) || is_optimized_index(
            dfa,
            vocabulary,
            start,
            index,
        ),
    ensures
        index.allows(state, vocabulary.eos) <==> index.final_states.contains(state),
        index.next(state, vocabulary.eos) is None,
{
    if !is_index(dfa, vocabulary, start, index) {
        let numbers = choose|numbers: Map<StateId, StateId>|
            is_numbered_index(dfa, vocabulary, start, numbers, index);
        if index.allows(state, vocabulary.eos) {
            let s = choose|s: StateId| #[trigger] numbers.contains_key(s) && numbers[s] == state;
            assert(index.row(numbers[s]).contains_key(vocabulary.eos));
        }
        if index.final_states.contains(state) {
            let s = choose|s: StateId| #[trigger]
                numbers.contains_key(s) && numbers[s] == state && dfa.accepts(s);
            assert(index.row(numbers[s]).contains_key(vocabulary.eos));
        }
    }
}

/// A token leads on from a state exactly if it is allowed there and does not end the sequence.
pub proof fn law_allowed_tokens_lead_on(index: IndexView, state: StateId, id: TokenId)
    ensures
        index.next(state, id) is Some <==> index.allows(state, id) && id != index.eos_token_id,
{
}

/// Every state that an index leads to is reached by tokens from its initial state.
pub proof fn law_targets_are_reached(
    dfa: DenseDfa,
    vocabulary: VocabularyView,
    start: StateId,
    index: IndexView,
    state: StateId,
    id: TokenId,
)
    requires
        is_index(dfa, vocabulary, start, index),
        index.allows(state, id),
    ensures
        reaches(token_graph(dfa, vocabulary), start, index.transitions[state][id]),
{
    let to = index.transitions[state][id];
    if id != vocabulary.eos {
        let token = choose|token: Seq<u8>| #[trigger]
            vocabulary.bears(token, id) && dfa.walk(state, token) == Some(to) && dfa.keeps(to);
        assert(leads(dfa, vocabulary, state, token, to));
        lemma_reaches_further(token_graph(dfa, vocabulary), start, state, to);
    }
}

/// Every state that an optimized index leads to is one of its own, numbered states.
pub proof fn law_numbered_targets(
    dfa: DenseDfa,
    vocabulary: VocabularyView,
    start: StateId,
    numbers: Map<StateId, StateId>,
    index: IndexView,
    state: StateId,
    id: TokenId,
)
    requires
        is_numbered_index(dfa, vocabulary, start, numbers, index),
        index.allows(state, id),
    ensures
        state < numbers.dom().len(),
        index.transitions[state][id] < numbers.dom().len(),
{
    let s = choose|s: StateId| #[trigger] numbers.contains_key(s) && numbers[s] == state;
    let row = index.row(state).remove(vocabulary.eos);
    if id != vocabulary.eos {
        assert(row.contains_key(id));
        let token = choose|token: Seq<u8>| #[trigger]
            decides(dfa, vocabulary, grouped_tokens(vocabulary), s, id, token) && row[id]
                == numbers[dfa.walk(s, token).unwrap()];
        let to = dfa.walk(s, token).unwrap();
        assert(kept_graph(dfa, vocabulary)(s, to));
        lemma_reaches_further(kept_graph(dfa, vocabulary), start, s, to);
        assert(numbers.contains_key(to));
    }
}

/// What an optimized index reaches, the other reaches too.
proof fn lemma_pruned_is_reached(
    dfa: DenseDfa,
    vocabulary: VocabularyView,
    start: StateId,
    state: StateId,
)
    requires
        reaches(kept_graph(dfa, vocabulary), start, state),
    ensures
        reaches(token_graph(dfa, vocabulary), start, state),
{
    let all = token_graph(dfa, vocabulary);
    let some = kept_graph(dfa, vocabulary);
    let reached = Set::new(|s: StateId| reaches(all, start, s));
    lemma_reaches_itself(all, start);
    assert forall|a: StateId, b: StateId| reached.contains(a) && #[trigger] some(
        a,
        b,
    ) implies reached.contains(b) by {
        let token = choose|token: Seq<u8>| #[trigger]
            grouped_tokens(vocabulary).contains(token) && admits(dfa, a, token) && dfa.walk(
                a,
                token,
            ) == Some(b);
        assert(leads(dfa, vocabulary, a, token, b));
        lemma_reaches_further(all, start, a, b);
    }
    lemma_reached_within(some, reached, start, state);
}

/// In each of its states an optimized index allows the same identifiers as the other, but for those
/// of the empty token. Where no identifier belongs to two tokens, they lead to the same states.
pub proof fn law_optimized_transitions(
    dfa: DenseDfa,
    vocabulary: VocabularyView,
    start: StateId,
    index: IndexView,
    numbers: Map<StateId, StateId>,
    optimized: IndexView,
    state: StateId,
    id: TokenId,
)
    requires
        is_index(dfa, vocabulary, start, index),
        is_numbered_index(dfa, vocabulary, start, numbers, optimized),
        numbers.contains_key(state),
        !vocabulary.bears(Seq::empty(), id),
    ensures
        optimized.allows(numbers[state], id) <==> index.allows(state, id),
        vocabulary.unambiguous() ==> optimized.next(numbers[state], id) == match index.next(
            state,
            id,
        ) {
            Some(to) => Some(numbers[to]),
            None => None,
        },
{
    let pool = grouped_tokens(vocabulary);
    let number = numbers[state];
    lemma_pruned_is_reached(dfa, vocabulary, start, state);
    let row = optimized.row(number).remove(vocabulary.eos);
    assert(is_numbered_row(dfa, vocabulary, pool, numbers, state, row));
    if id == vocabulary.eos {
        assert(optimized.allows(number, id) <==> optimized.row(number).contains_key(id));
    } else {
        assert(optimized.allows(number, id) <==> row.contains_key(id));
        if row.contains_key(id) {
            let token = choose|token: Seq<u8>| #[trigger]
                decides(dfa, vocabulary, pool, state, id, token) && row[id] == numbers[dfa.walk(
                    state,
                    token,
                ).unwrap()];
            assert(vocabulary.bears(token, id));
            assert(offers(dfa, vocabulary, state, id, dfa.walk(state, token).unwrap()));
            assert(index.allows(state, id));
        }
        if index.allows(state, id) {
            let to = index.transitions[state][id];
            let token = choose|token: Seq<u8>| #[trigger]
                vocabulary.bears(token, id) && dfa.walk(state, token) == Some(to) && dfa.keeps(to);
            assert(token.len() > 0) by {
                if token.len() == 0 {
                    assert(token =~= Seq::empty());
                }
            }
            assert(pool.contains(token));
            assert(row.contains_key(id));
        }
    }
}

/// Where no identifier belongs to two tokens, two optimized indexes of an automaton and a
/// vocabulary differ in the numbers of their states alone.
pub proof fn law_optimized_index_is_unique(
    dfa: DenseDfa,
    vocabulary: VocabularyView,
    start: StateId,
    numbers: (Map<StateId, StateId>, Map<StateId, StateId>),
    indexes: (IndexView, IndexView),
    state: StateId,
    id: TokenId,
)
    requires
        is_numbered_index(dfa, vocabulary, start, numbers.0, indexes.0),
        is_numbered_index(dfa, vocabulary, start, numbers.1, indexes.1),
        vocabulary.unambiguous(),
    ensures
        numbers.0.contains_key(state) <==> numbers.1.contains_key(state),
        numbers.0.contains_key(state) ==> {
            let one = numbers.0[state];
            let other = numbers.1[state];
            &&& indexes.0.final_states.contains(one) <==> indexes.1.final_states.contains(other)
            &&& indexes.0.allows(one, id) <==> indexes.1.allows(other, id)
            &&& indexes.0.allows(one, id) ==> exists|to: StateId| #[trigger]
                numbers.0.contains_key(to) && indexes.0.transitions[one][id] == numbers.0[to]
                    && indexes.1.transitions[other][id] == numbers.1[to]
        },
{
    if numbers.0.contains_key(state) {
        assert(numbers.1.contains_key(state));
        lemma_numbered_state(dfa, vocabulary, start, numbers.0, indexes.0, state, id);
        lemma_numbered_state(dfa, vocabulary, start, numbers.1, indexes.1, state, id);
        if indexes.0.allows(numbers.0[state], id) {
            if id == vocabulary.eos {
                assert(numbers.0.contains_key(state));
            } else {
                let token = choose|token: Seq<u8>| #[trigger]
                    vocabulary.bears(token, id) && token.len() > 0 && admits(dfa, state, token);
                assert(numbers.0.contains_key(dfa.walk(state, token).unwrap()));
            }
        }
    }
}

/// What an optimized index holds of a numbered state.
proof fn lemma_numbered_state(
    dfa: DenseDfa,
    vocabulary: VocabularyView,
    start: StateId,
    numbers: Map<StateId, StateId>,
    index: IndexView,
    state: StateId,
    id: TokenId,
)
    requires
        is_numbered_index(dfa, vocabulary, start, numbers, index),
        vocabulary.unambiguous(),
        numbers.contains_key(state),
    ensures
        index.final_states.contains(numbers[state]) <==> dfa.accepts(state),
        index.allows(numbers[state], id) <==> if id == vocabulary.eos {
            dfa.accepts(state)
        } else {
            exists|token: Seq<u8>| #[trigger]
                vocabulary.bears(token, id) && token.len() > 0 && admits(dfa, state, token)
        },
        id == vocabulary.eos && index.allows(numbers[state], id)
            ==> index.transitions[numbers[state]][id] == numbers[state],
        forall|token: Seq<u8>| #[trigger]
            vocabulary.bears(token, id) && token.len() > 0 && admits(dfa, state, token) ==> {
                let to = dfa.walk(state, token).unwrap();
                numbers.contains_key(to) && index.transitions[numbers[state]][id] == numbers[to]
            },
{
    let pool = grouped_tokens(vocabulary);
    let hop = kept_graph(dfa, vocabulary);
    let row = index.row(numbers[state]).remove(vocabulary.eos);
    assert(is_numbered_row(dfa, vocabulary, pool, numbers, state, row));
    if index.final_states.contains(numbers[state]) {
        let s = choose|s: StateId| #[trigger]
            numbers.contains_key(s) && numbers[s] == numbers[state] && dfa.accepts(s);
        assert(s == state);
    }
    if id == vocabulary.eos {
        assert(index.allows(numbers[state], id) <==> index.row(numbers[state]).contains_key(id));
    } else {
        assert(index.allows(numbers[state], id) <==> row.contains_key(id));
        if row.contains_key(id) {
            let token = choose|token: Seq<u8>| #[trigger]
                decides(dfa, vocabulary, pool, state, id, token) && row[id] == numbers[dfa.walk(
                    state,
                    token,
                ).unwrap()];
            assert(vocabulary.bears(token, id));
        }
        assert forall|token: Seq<u8>| #[trigger]
            vocabulary.bears(token, id) && token.len() > 0 && admits(dfa, state, token) implies {
            let to = dfa.walk(state, token).unwrap();
            numbers.contains_key(to) && index.transitions[numbers[state]][id] == numbers[to]
        } by {
            let to = dfa.walk(state, token).unwrap();
            assert(pool.contains(token));
            assert(row.contains_key(id));
            assert(hop(state, to));
            lemma_reaches_further(hop, start, state, to);
        }
    }
}

} // verus!
