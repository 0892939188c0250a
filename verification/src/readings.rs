//! What an index does, in terms of the table of its automaton and the tokens of its vocabulary.
//!
//! A reading of some bytes is the sequence of states that an automaton goes through: each state but
//! the first stands in the table at the row of the one before and the column of the byte, and is
//! neither the dead state nor the quit state. The text has matched in a state if what stands there
//! in the table for the end of the input is a match state. A token may end in a state that is no
//! match state, or in which the text has matched.
//!
//! The laws below spell this out over the fields of the automaton, the vocabulary and the index.

use crate::automaton::DenseDfa;
use crate::graph::{lemma_reached_within, lemma_reaches_further, lemma_reaches_itself, reaches};
use crate::groups::{grouped_tokens, same_group};
use crate::index::{is_index, is_outcome, leads, offers, token_graph, Index, IndexView};
use crate::laws::{advance, joined, lemma_run, lemma_run_numbered, names, run};
use crate::optimized::{
    admits, decides, is_numbered_index, is_numbered_row, is_optimized_outcome, kept_graph,
};
use crate::primitives::{Error, StateId, TokenId};
use crate::vocabulary::VocabularyView;
use regex_automata::dfa::dense::BuildError;
use vstd::prelude::*;

verus! {

/// Whether `path` is a reading of `bytes`.
spec fn reading(dfa: DenseDfa, bytes: Seq<u8>, path: Seq<StateId>) -> bool {
    &&& path.len() == bytes.len() + 1
    &&& forall|i: int|
        0 <= i < bytes.len() ==> path[i + 1] == dfa.table[path[i] + dfa.classes[(
        #[trigger] bytes[i]) as int]]
    &&& forall|i: int|
        1 <= i < path.len() ==> (#[trigger] path[i]) != 0 && path[i] != dfa.quit
}

/// Whether the text has matched in `state`.
spec fn matched(dfa: DenseDfa, state: StateId) -> bool {
    let end = dfa.table[state + dfa.classes[255] + 1];
    end != 0 && dfa.min_match <= end <= dfa.max_match
}

/// Whether a token may end in `state`.
spec fn may_end(dfa: DenseDfa, state: StateId) -> bool {
    state != 0 && dfa.min_match <= state <= dfa.max_match ==> matched(dfa, state)
}

/// Whether `token` is one that has not the end-of-sequence identifier.
spec fn is_text(vocabulary: VocabularyView, token: Seq<u8>) -> bool {
    vocabulary.tokens.contains_key(token) && !vocabulary.tokens[token].contains(vocabulary.eos)
}

/// The states that the table leads through.
spec fn trace(dfa: DenseDfa, state: StateId, bytes: Seq<u8>) -> Seq<StateId>
    decreases bytes.len(),
{
    if bytes.len() == 0 {
        seq![state]
    } else {
        let before = trace(dfa, state, bytes.drop_last());
        before.push(dfa.table[before.last() + dfa.classes[bytes.last() as int]])
    }
}

/// A text is read to its end exactly if no state on the way, as the table gives them one by one, is
/// the dead state or the quit state; and then the last of these states is reached.
pub proof fn law_walk_follows_table(dfa: DenseDfa, bytes: Seq<u8>, path: Seq<StateId>)
    requires
        path.len() == bytes.len() + 1,
        forall|i: int|
            0 <= i < bytes.len() ==> path[i + 1] == dfa.table[path[i] + dfa.classes[(
            #[trigger] bytes[i]) as int]],
    ensures
        dfa.walk(path[0], bytes) == if forall|i: int|
            1 <= i < path.len() ==> (#[trigger] path[i]) != 0 && path[i] != dfa.quit {
            Some(path.last())
        } else {
            None::<StateId>
        },
    decreases bytes.len(),
{
    if bytes.len() > 0 {
        let before = path.drop_last();
        let shorter = bytes.drop_last();
        assert forall|i: int| 0 <= i < shorter.len() implies before[i + 1] == dfa.table[before[i]
            + dfa.classes[(#[trigger] shorter[i]) as int]] by {
            assert(shorter[i] == bytes[i]);
        }
        law_walk_follows_table(dfa, shorter, before);
        let n = bytes.len() as int;
        assert(bytes[n - 1] == bytes.last());
        assert(path[n] == dfa.table[path[n - 1] + dfa.classes[bytes.last() as int]]);
        assert(before.last() == path[n - 1]);
        if forall|i: int| 1 <= i < path.len() ==> (#[trigger] path[i]) != 0 && path[i]
            != dfa.quit {
            assert forall|i: int| 1 <= i < before.len() implies (#[trigger] before[i]) != 0
                && before[i] != dfa.quit by {
                assert(before[i] == path[i]);
            }
            assert(path[n] != 0 && path[n] != dfa.quit);
        } else {
            let i = choose|i: int|
                1 <= i < path.len() && !((#[trigger] path[i]) != 0 && path[i] != dfa.quit);
            if i < n {
                assert(before[i] == path[i]);
            }
        }
    }
}

/// The text read so far is a match exactly if the entry of the table for the end of the input is a
/// match state, and a token may end in a state exactly if that holds or the state is no match state.
pub proof fn law_matches_follow_table(dfa: DenseDfa, state: StateId)
    ensures
        dfa.accepts(state) <==> {
            let end = dfa.table[state + dfa.classes[255] + 1];
            end != 0 && dfa.min_match <= end <= dfa.max_match
        },
        dfa.keeps(state) <==> (state != 0 && dfa.min_match <= state <= dfa.max_match ==> {
            let end = dfa.table[state + dfa.classes[255] + 1];
            end != 0 && dfa.min_match <= end <= dfa.max_match
        }),
{
}

/// Every state has exactly one way through the table for given bytes.
proof fn lemma_trace(dfa: DenseDfa, state: StateId, bytes: Seq<u8>)
    ensures
        trace(dfa, state, bytes).len() == bytes.len() + 1,
        trace(dfa, state, bytes)[0] == state,
        forall|i: int|
            0 <= i < bytes.len() ==> trace(dfa, state, bytes)[i + 1] == dfa.table[trace(
                dfa,
                state,
                bytes,
            )[i] + dfa.classes[(#[trigger] bytes[i]) as int]],
    decreases bytes.len(),
{
    if bytes.len() > 0 {
        let shorter = bytes.drop_last();
        let before = trace(dfa, state, shorter);
        let path = trace(dfa, state, bytes);
        lemma_trace(dfa, state, shorter);
        assert forall|i: int| 0 <= i < bytes.len() implies path[i + 1] == dfa.table[path[i]
            + dfa.classes[(#[trigger] bytes[i]) as int]] by {
            if i < shorter.len() {
                assert(shorter[i] == bytes[i]);
            }
        }
    }
}

/// A reading is a walk.
proof fn lemma_reading_walks(dfa: DenseDfa, bytes: Seq<u8>, path: Seq<StateId>)
    requires
        reading(dfa, bytes, path),
    ensures
        dfa.walk(path[0], bytes) == Some(path.last()),
{
    law_walk_follows_table(dfa, bytes, path);
}

/// A walk is a reading.
proof fn lemma_walk_is_reading(dfa: DenseDfa, state: StateId, bytes: Seq<u8>) -> (path: Seq<
    StateId,
>)
    requires
        dfa.walk(state, bytes) is Some,
    ensures
        reading(dfa, bytes, path),
        path[0] == state,
        dfa.walk(state, bytes) == Some(path.last()),
{
    let path = trace(dfa, state, bytes);
    lemma_trace(dfa, state, bytes);
    law_walk_follows_table(dfa, bytes, path);
    path
}

/// A reading of the first bytes, and of those that follow.
proof fn lemma_reading_split(dfa: DenseDfa, first: Seq<u8>, second: Seq<u8>, path: Seq<StateId>)
    requires
        reading(dfa, first + second, path),
    ensures
        reading(dfa, first, path.take((first.len() + 1) as int)),
        reading(dfa, second, path.skip(first.len() as int)),
{
    let n = first.len() as int;
    let bytes = first + second;
    let one = path.take(n + 1);
    let other = path.skip(n);
    assert forall|i: int| 0 <= i < n implies one[i + 1] == dfa.table[one[i] + dfa.classes[(
    #[trigger] first[i]) as int]] by {
        assert(bytes[i] == first[i]);
    }
    assert forall|i: int| 1 <= i < one.len() implies (#[trigger] one[i]) != 0 && one[i]
        != dfa.quit by {
        assert(one[i] == path[i]);
    }
    assert forall|i: int| 0 <= i < second.len() implies other[i + 1] == dfa.table[other[i]
        + dfa.classes[(#[trigger] second[i]) as int]] by {
        assert(bytes[n + i] == second[i]);
        assert(other[i + 1] == path[n + i + 1]);
    }
    assert forall|i: int| 1 <= i < other.len() implies (#[trigger] other[i]) != 0 && other[i]
        != dfa.quit by {
        assert(other[i] == path[n + i]);
    }
}

/// Two readings, the second where the first ends.
proof fn lemma_readings_join(
    dfa: DenseDfa,
    first: Seq<u8>,
    second: Seq<u8>,
    one: Seq<StateId>,
    other: Seq<StateId>,
) -> (path: Seq<StateId>)
    requires
        reading(dfa, first, one),
        reading(dfa, second, other),
        one.last() == other[0],
    ensures
        reading(dfa, first + second, path),
        path.take((first.len() + 1) as int) == one,
        path[0] == one[0],
        path.last() == other.last(),
{
    let path = one.drop_last() + other;
    let bytes = first + second;
    let n = first.len() as int;
    assert forall|i: int| 1 <= i < path.len() implies (#[trigger] path[i]) != 0 && path[i]
        != dfa.quit by {
        if i < n {
            assert(path[i] == one[i]);
        } else if i == n {
            assert(path[i] == other[0] && one.last() == one[n]);
        } else {
            assert(path[i] == other[i - n]);
        }
    }
    assert forall|i: int| 0 <= i < bytes.len() implies path[i + 1] == dfa.table[path[i]
        + dfa.classes[(#[trigger] bytes[i]) as int]] by {
        if i < n {
            assert(bytes[i] == first[i]);
            assert(path[i] == one[i]);
            assert(path[i + 1] == one[i + 1]);
        } else {
            assert(bytes[i] == second[i - n]);
            assert(path[i] == other[i - n]);
            assert(path[i + 1] == other[i - n + 1]);
        }
    }
    assert(path.take(n + 1) =~= one);
    path
}

proof fn lemma_joined(words: Seq<Seq<u8>>)
    ensures
        joined(words) == words.flatten(),
        words.len() > 0 ==> words.flatten() == words.drop_last().flatten() + words.last(),
    decreases words.len(),
{
    if words.len() > 0 {
        lemma_joined(words.drop_last());
        words.lemma_flatten_and_flatten_alt_are_equivalent();
        words.drop_last().lemma_flatten_and_flatten_alt_are_equivalent();
    }
}

/// Building an index fails only where there is no automaton, which is reported with the reason, or
/// where the automaton has no start state. The vocabulary plays no part in it.
pub proof fn law_building_fails_only_without_start(
    built: Result<DenseDfa, BuildError>,
    vocabulary: VocabularyView,
    outcome: Result<Index, Error>,
)
    requires
        is_outcome(built, vocabulary, outcome) || is_optimized_outcome(built, vocabulary, outcome),
    ensures
        outcome is Ok <==> (built matches Ok(dfa) && dfa.start is Some),
        built matches Ok(dfa) ==> dfa.start is None ==> outcome == Err::<Index, Error>(
            Error::DfaHasNoStartState,
        ),
        built matches Err(reason) ==> outcome == Err::<Index, Error>(
            Error::IndexDfaError(Box::new(reason)),
        ),
{
}

/// What makes up a reading of tokens.
proof fn lemma_spelled_out(
    dfa: DenseDfa,
    vocabulary: VocabularyView,
    words: Seq<Seq<u8>>,
    path: Seq<StateId>,
)
    requires
        forall|k: int|
            0 <= k < words.len() ==> vocabulary.tokens.contains_key(#[trigger] words[k])
                && !vocabulary.tokens[words[k]].contains(vocabulary.eos),
        path.len() == words.flatten().len() + 1,
        forall|i: int|
            0 <= i < words.flatten().len() ==> path[i + 1] == dfa.table[path[i] + dfa.classes[(
            #[trigger] words.flatten()[i]) as int]],
        forall|i: int|
            1 <= i < path.len() ==> (#[trigger] path[i]) != 0 && path[i] != dfa.quit,
    ensures
        forall|k: int| 0 <= k < words.len() ==> is_text(vocabulary, #[trigger] words[k]),
        reading(dfa, words.flatten(), path),
{
}

/// Tokens that are read one after the other lead to a state of the index.
proof fn lemma_reading_reaches(
    dfa: DenseDfa,
    vocabulary: VocabularyView,
    words: Seq<Seq<u8>>,
    path: Seq<StateId>,
)
    requires
        forall|k: int| 0 <= k < words.len() ==> is_text(vocabulary, #[trigger] words[k]),
        reading(dfa, words.flatten(), path),
    ensures
        reaches(token_graph(dfa, vocabulary), path[0], path.last()),
    decreases words.len(),
{
    let hop = token_graph(dfa, vocabulary);
    lemma_joined(words);
    if words.len() == 0 {
        assert(words.flatten().len() == 0);
        lemma_reaches_itself(hop, path[0]);
    } else {
        let before = words.drop_last();
        let token = words.last();
        let n = before.flatten().len() as int;
        lemma_reading_split(dfa, before.flatten(), token, path);
        let first = path.take(n + 1);
        let second = path.skip(n);
        assert forall|k: int| 0 <= k < before.len() implies is_text(
            vocabulary,
            #[trigger] before[k],
        ) by {
            assert(before[k] == words[k]);
        }
        lemma_reading_reaches(dfa, vocabulary, before, first);
        lemma_reading_walks(dfa, token, second);
        assert(is_text(vocabulary, words[words.len() - 1]));
        assert(first.last() == path[n] && second[0] == path[n]);
        assert(second.last() == path.last());
        assert(leads(dfa, vocabulary, path[n], token, path.last()));
        lemma_reaches_further(hop, path[0], path[n], path.last());
    }
}

/// Whatever the length and the bytes of a token: if it can be read behind other tokens, and may end
/// where it then ends, an index allows each of its identifiers there. An identifier that no other
/// token has leads to where the token ends.
///
/// The tokens are `words`, the last of them the one in question, and `path` is what is gone through
/// from the start state on when they are read one after the other.
pub proof fn law_tokens_are_allowed(
    dfa: DenseDfa,
    vocabulary: VocabularyView,
    start: StateId,
    index: Index,
    words: Seq<Seq<u8>>,
    path: Seq<StateId>,
    id: TokenId,
)
    requires
        is_outcome(Ok(dfa), vocabulary, Ok(index)),
        dfa.start == Some(start),
        words.len() > 0,
        forall|k: int|
            0 <= k < words.len() ==> vocabulary.tokens.contains_key(#[trigger] words[k])
                && !vocabulary.tokens[words[k]].contains(vocabulary.eos),
        vocabulary.tokens[words.last()].contains(id),
        path.len() == words.flatten().len() + 1,
        path[0] == start,
        forall|i: int|
            0 <= i < words.flatten().len() ==> path[i + 1] == dfa.table[path[i] + dfa.classes[(
            #[trigger] words.flatten()[i]) as int]],
        forall|i: int|
            1 <= i < path.len() ==> (#[trigger] path[i]) != 0 && path[i] != dfa.quit,
        path.last() != 0 && dfa.min_match <= path.last() <= dfa.max_match ==> {
            let end = dfa.table[path.last() + dfa.classes[255] + 1];
            end != 0 && dfa.min_match <= end <= dfa.max_match
        },
    ensures
        ({
            let state = path[words.drop_last().flatten().len() as int];
            &&& index@.transitions.contains_key(state)
            &&& index@.transitions[state].contains_key(id)
            &&& (forall|other: Seq<u8>|
                (#[trigger] vocabulary.tokens.contains_key(other))
                    && !vocabulary.tokens[other].contains(vocabulary.eos)
                    && vocabulary.tokens[other].contains(id) ==> other == words.last())
                ==> index@.transitions[state][id] == path.last()
        }),
{
    lemma_spelled_out(dfa, vocabulary, words, path);
    lemma_joined(words);
    let before = words.drop_last();
    let token = words.last();
    let n = before.flatten().len() as int;
    lemma_reading_split(dfa, before.flatten(), token, path);
    let first = path.take(n + 1);
    let second = path.skip(n);
    let state = path[n];
    assert forall|k: int| 0 <= k < before.len() implies is_text(
        vocabulary,
        #[trigger] before[k],
    ) by {
        assert(before[k] == words[k]);
    }
    lemma_reading_reaches(dfa, vocabulary, before, first);
    assert(first.last() == state && second[0] == state && second.last() == path.last());
    lemma_reading_walks(dfa, token, second);
    assert(is_text(vocabulary, words[words.len() - 1]));
    assert(vocabulary.bears(token, id));
    assert(dfa.keeps(path.last()));
    assert(offers(dfa, vocabulary, state, id, path.last()));
    assert(id != vocabulary.eos);
    assert(index@.allows(state, id));
    let to = index@.transitions[state][id];
    assert(offers(dfa, vocabulary, state, id, to));
    let other = choose|other: Seq<u8>| #[trigger]
        vocabulary.bears(other, id) && dfa.walk(state, other) == Some(to) && dfa.keeps(to);
    assert(vocabulary.tokens.contains_key(other));
}

/// A state that tokens lead to is final, and allows the end of the sequence, exactly if the entry of
/// the table for the end of the input is a match state. The end of the sequence stays in its state.
pub proof fn law_final_states_follow_table(
    dfa: DenseDfa,
    vocabulary: VocabularyView,
    start: StateId,
    index: Index,
    words: Seq<Seq<u8>>,
    path: Seq<StateId>,
)
    requires
        is_outcome(Ok(dfa), vocabulary, Ok(index)),
        dfa.start == Some(start),
        forall|k: int|
            0 <= k < words.len() ==> vocabulary.tokens.contains_key(#[trigger] words[k])
                && !vocabulary.tokens[words[k]].contains(vocabulary.eos),
        path.len() == words.flatten().len() + 1,
        path[0] == start,
        forall|i: int|
            0 <= i < words.flatten().len() ==> path[i + 1] == dfa.table[path[i] + dfa.classes[(
            #[trigger] words.flatten()[i]) as int]],
        forall|i: int|
            1 <= i < path.len() ==> (#[trigger] path[i]) != 0 && path[i] != dfa.quit,
    ensures
        index@.initial_state == start,
        index@.eos_token_id == vocabulary.eos,
        ({
            let state = path.last();
            let end = dfa.table[state + dfa.classes[255] + 1];
            &&& index@.final_states.contains(state) <==> end != 0 && dfa.min_match <= end
                <= dfa.max_match
            &&& index@.transitions.contains_key(state) && index@.transitions[state].contains_key(
                vocabulary.eos,
            ) <==> end != 0 && dfa.min_match <= end <= dfa.max_match
            &&& index@.final_states.contains(state) ==> index@.transitions[state][vocabulary.eos]
                == state
        }),
{
    lemma_spelled_out(dfa, vocabulary, words, path);
    lemma_reading_reaches(dfa, vocabulary, words, path);
    assert(index@.allows(path.last(), vocabulary.eos) <==> matched(dfa, path.last()));
}

/// What is reached is reached by a reading.
proof fn lemma_reached_by_reading(
    dfa: DenseDfa,
    vocabulary: VocabularyView,
    start: StateId,
    state: StateId,
) -> (found: (Seq<Seq<u8>>, Seq<StateId>))
    requires
        reaches(token_graph(dfa, vocabulary), start, state),
    ensures
        forall|k: int| 0 <= k < found.0.len() ==> is_text(vocabulary, #[trigger] found.0[k]),
        reading(dfa, found.0.flatten(), found.1),
        found.1[0] == start,
        found.1.last() == state,
{
    let hop = token_graph(dfa, vocabulary);
    let good = Set::new(|s: StateId| has_reading(dfa, vocabulary, start, s));
    let none: Seq<Seq<u8>> = Seq::empty();
    let here = (none, seq![start]);
    assert(is_reading_to(dfa, vocabulary, start, start, here.0, here.1));
    assert forall|a: StateId, b: StateId| good.contains(a) && #[trigger] hop(
        a,
        b,
    ) implies good.contains(b) by {
        let found = choose|found: (Seq<Seq<u8>>, Seq<StateId>)| #[trigger]
            is_reading_to(dfa, vocabulary, start, a, found.0, found.1);
        let words = found.0;
        let path = found.1;
        let token = choose|token: Seq<u8>| leads(dfa, vocabulary, a, token, b);
        let tail = lemma_walk_is_reading(dfa, a, token);
        let more = words.push(token);
        lemma_joined(more);
        assert(more.drop_last() =~= words);
        let longer = lemma_readings_join(dfa, words.flatten(), token, path, tail);
        assert forall|k: int| 0 <= k < more.len() implies is_text(
            vocabulary,
            #[trigger] more[k],
        ) by {
            if k < words.len() {
                assert(is_text(vocabulary, words[k]));
            }
        }
        let there = (more, longer);
        assert(is_reading_to(dfa, vocabulary, start, b, there.0, there.1));
    }
    lemma_reached_within(hop, good, start, state);
    choose|found: (Seq<Seq<u8>>, Seq<StateId>)| #[trigger]
        is_reading_to(dfa, vocabulary, start, state, found.0, found.1)
}

/// Whether `path` is a reading of the tokens `words` that leads from `start` to `state`.
spec fn is_reading_to(
    dfa: DenseDfa,
    vocabulary: VocabularyView,
    start: StateId,
    state: StateId,
    words: Seq<Seq<u8>>,
    path: Seq<StateId>,
) -> bool {
    &&& forall|k: int| 0 <= k < words.len() ==> is_text(vocabulary, #[trigger] words[k])
    &&& reading(dfa, words.flatten(), path)
    &&& path[0] == start
    &&& path.last() == state
}

/// Whether a reading of tokens leads from `start` to `state`.
spec fn has_reading(
    dfa: DenseDfa,
    vocabulary: VocabularyView,
    start: StateId,
    state: StateId,
) -> bool {
    exists|found: (Seq<Seq<u8>>, Seq<StateId>)| #[trigger]
        is_reading_to(dfa, vocabulary, start, state, found.0, found.1)
}

/// An index allows nothing that is not read: a state that allows anything is reached by tokens that
/// are read one after the other; an identifier is that of a token that is read there, may end where
/// it then ends, and leads to that state; and the end of the sequence is allowed only where the text
/// has matched, and stays there.
pub proof fn law_allowed_tokens_are_read(
    dfa: DenseDfa,
    vocabulary: VocabularyView,
    start: StateId,
    index: Index,
    state: StateId,
    id: TokenId,
)
    requires
        is_outcome(Ok(dfa), vocabulary, Ok(index)),
        dfa.start == Some(start),
        index@.transitions.contains_key(state),
        index@.transitions[state].contains_key(id),
    ensures
        exists|words: Seq<Seq<u8>>, path: Seq<StateId>|
            #![trigger words.flatten(), path.last()]
            {
                &&& forall|k: int|
                    0 <= k < words.len() ==> vocabulary.tokens.contains_key(#[trigger] words[k])
                        && !vocabulary.tokens[words[k]].contains(vocabulary.eos)
                &&& path.len() == words.flatten().len() + 1
                &&& path[0] == start
                &&& path.last() == state
                &&& forall|i: int|
                    0 <= i < words.flatten().len() ==> path[i + 1] == dfa.table[path[i] + dfa.classes[(
                    #[trigger] words.flatten()[i]) as int]]
                &&& forall|i: int|
                    1 <= i < path.len() ==> (#[trigger] path[i]) != 0 && path[i] != dfa.quit
            },
        id == vocabulary.eos ==> {
            let end = dfa.table[state + dfa.classes[255] + 1];
            &&& end != 0 && dfa.min_match <= end <= dfa.max_match
            &&& index@.transitions[state][id] == state
        },
        id != vocabulary.eos ==> exists|token: Seq<u8>, tail: Seq<StateId>|
            #![trigger vocabulary.tokens[token], tail.last()]
            {
                &&& vocabulary.tokens.contains_key(token)
                &&& !vocabulary.tokens[token].contains(vocabulary.eos)
                &&& vocabulary.tokens[token].contains(id)
                &&& tail.len() == token.len() + 1
                &&& tail[0] == state
                &&& tail.last() == index@.transitions[state][id]
                &&& forall|i: int|
                    0 <= i < token.len() ==> tail[i + 1] == dfa.table[tail[i] + dfa.classes[(
                    #[trigger] token[i]) as int]]
                &&& forall|i: int|
                    1 <= i < tail.len() ==> (#[trigger] tail[i]) != 0 && tail[i] != dfa.quit
                &&& tail.last() != 0 && dfa.min_match <= tail.last() <= dfa.max_match ==> {
                    let end = dfa.table[tail.last() + dfa.classes[255] + 1];
                    end != 0 && dfa.min_match <= end <= dfa.max_match
                }
            },
{
    assert(index@.allows(state, id));
    let (words, path) = lemma_reached_by_reading(dfa, vocabulary, start, state);
    assert(is_reading_to(dfa, vocabulary, start, state, words, path));
    assert(words.flatten().len() + 1 == path.len());
    assert forall|k: int| 0 <= k < words.len() implies vocabulary.tokens.contains_key(
        #[trigger] words[k],
    ) && !vocabulary.tokens[words[k]].contains(vocabulary.eos) by {
        assert(is_text(vocabulary, words[k]));
    }
    assert(path.last() == state);
    if id != vocabulary.eos {
        let to = index@.transitions[state][id];
        let token = choose|token: Seq<u8>| #[trigger]
            vocabulary.bears(token, id) && dfa.walk(state, token) == Some(to) && dfa.keeps(to);
        let tail = lemma_walk_is_reading(dfa, state, token);
        assert(may_end(dfa, tail.last()));
        assert(vocabulary.tokens[token].contains(id));
        assert(reading(dfa, token, tail));
    }
}

/// A final state is one that tokens, read one after the other, lead to and in which the text has
/// matched.
pub proof fn law_final_states_are_reached(
    dfa: DenseDfa,
    vocabulary: VocabularyView,
    start: StateId,
    index: Index,
    state: StateId,
)
    requires
        is_outcome(Ok(dfa), vocabulary, Ok(index)),
        dfa.start == Some(start),
        index@.final_states.contains(state),
    ensures
        ({
            let end = dfa.table[state + dfa.classes[255] + 1];
            end != 0 && dfa.min_match <= end <= dfa.max_match
        }),
        exists|words: Seq<Seq<u8>>, path: Seq<StateId>|
            #![trigger words.flatten(), path.last()]
            {
                &&& forall|k: int|
                    0 <= k < words.len() ==> vocabulary.tokens.contains_key(#[trigger] words[k])
                        && !vocabulary.tokens[words[k]].contains(vocabulary.eos)
                &&& path.len() == words.flatten().len() + 1
                &&& path[0] == start
                &&& path.last() == state
                &&& forall|i: int|
                    0 <= i < words.flatten().len() ==> path[i + 1] == dfa.table[path[i] + dfa.classes[(
                    #[trigger] words.flatten()[i]) as int]]
                &&& forall|i: int|
                    1 <= i < path.len() ==> (#[trigger] path[i]) != 0 && path[i] != dfa.quit
            },
{
    assert(index@.allows(state, vocabulary.eos));
    law_allowed_tokens_are_read(dfa, vocabulary, start, index, state, vocabulary.eos);
}

/// Tokens that may each end where they end lead an automaton on.
proof fn lemma_reading_advances(dfa: DenseDfa, words: Seq<Seq<u8>>, path: Seq<StateId>)
    requires
        reading(dfa, words.flatten(), path),
        forall|k: int|
            1 <= k <= words.len() ==> may_end(
                dfa,
                path[(#[trigger] words.take(k)).flatten().len() as int],
            ),
    ensures
        advance(dfa, path[0], words) == Some(path.last()),
    decreases words.len(),
{
    lemma_joined(words);
    if words.len() > 0 {
        let before = words.drop_last();
        let token = words.last();
        let n = before.flatten().len() as int;
        lemma_reading_split(dfa, before.flatten(), token, path);
        let first = path.take(n + 1);
        let second = path.skip(n);
        assert forall|k: int| 1 <= k <= before.len() implies may_end(
            dfa,
            first[(#[trigger] before.take(k)).flatten().len() as int],
        ) by {
            assert(before.take(k) =~= words.take(k));
            lemma_cut(before, k);
            assert(may_end(dfa, path[words.take(k).flatten().len() as int]));
        }
        lemma_reading_advances(dfa, before, first);
        lemma_reading_walks(dfa, token, second);
        assert(words.take(words.len() as int) =~= words);
        assert(may_end(dfa, path[words.take(words.len() as int).flatten().len() as int]));
        assert(path[words.flatten().len() as int] == path.last());
        assert(second.last() == path.last());
        assert(admits(dfa, path[n], token));
    }
}

/// The first of some tokens make up no more than all of them.
proof fn lemma_cut(words: Seq<Seq<u8>>, k: int)
    requires
        0 <= k <= words.len(),
    ensures
        words.take(k).flatten().len() <= words.flatten().len(),
    decreases words.len(),
{
    lemma_joined(words);
    if k < words.len() {
        assert(words.drop_last().take(k) =~= words.take(k));
        lemma_cut(words.drop_last(), k);
    } else {
        assert(words.take(k) =~= words);
    }
}

/// Whether `ids` lead through `stations`.
spec fn is_run(index: IndexView, ids: Seq<TokenId>, stations: Seq<StateId>) -> bool {
    &&& stations.len() == ids.len() + 1
    &&& stations[0] == index.initial_state
    &&& forall|k: int|
        0 <= k < ids.len() ==> index.transitions.contains_key(#[trigger] stations[k])
    &&& forall|k: int|
        0 <= k < ids.len() ==> {
            &&& index.transitions[stations[k]].contains_key(#[trigger] ids[k])
            &&& stations[k + 1] == index.transitions[stations[k]][ids[k]]
        }
}

/// A run goes through states of the index.
proof fn lemma_stations(index: IndexView, ids: Seq<TokenId>) -> (stations: Seq<StateId>)
    requires
        run(index, ids) is Some,
    ensures
        is_run(index, ids, stations),
        run(index, ids) == Some(stations.last()),
    decreases ids.len(),
{
    if ids.len() == 0 {
        let stations = seq![index.initial_state];
        assert(is_run(index, ids, stations));
        stations
    } else {
        let before = lemma_stations(index, ids.drop_last());
        let stations = before.push(run(index, ids).unwrap());
        assert forall|k: int| 0 <= k < ids.len() implies index.transitions.contains_key(
            #[trigger] stations[k],
        ) by {
            if k < ids.len() - 1 {
                assert(stations[k] == before[k]);
            } else {
                assert(index.allows(before.last(), ids.last()));
            }
        }
        assert forall|k: int| 0 <= k < ids.len() implies {
            &&& index.transitions[stations[k]].contains_key(#[trigger] ids[k])
            &&& stations[k + 1] == index.transitions[stations[k]][ids[k]]
        } by {
            if k < ids.len() - 1 {
                assert(ids.drop_last()[k] == ids[k]);
            } else {
                assert(index.allows(before.last(), ids.last()));
            }
        }
        assert(stations[0] == before[0]);
        assert(is_run(index, ids, stations));
        stations
    }
}

/// What tokens that are read one after the other make up, an index generates, optimized or not: if
/// each of them may end where it ends, their identifiers lead from state to state; and the last of
/// these states is final, and allows the end of the sequence, exactly if the text has then matched.
pub proof fn law_texts_are_generated(
    dfa: DenseDfa,
    vocabulary: VocabularyView,
    start: StateId,
    index: Index,
    words: Seq<Seq<u8>>,
    ids: Seq<TokenId>,
    path: Seq<StateId>,
)
    requires
        is_outcome(Ok(dfa), vocabulary, Ok(index)) || is_optimized_outcome(
            Ok(dfa),
            vocabulary,
            Ok(index),
        ),
        dfa.start == Some(start),
        forall|one: Seq<u8>, other: Seq<u8>, id: TokenId|
            #![trigger vocabulary.tokens[one].contains(id), vocabulary.tokens[other].contains(id)]
            {
                &&& vocabulary.tokens.contains_key(one)
                &&& !vocabulary.tokens[one].contains(vocabulary.eos)
                &&& vocabulary.tokens[one].contains(id)
                &&& vocabulary.tokens.contains_key(other)
                &&& !vocabulary.tokens[other].contains(vocabulary.eos)
                &&& vocabulary.tokens[other].contains(id)
            } ==> one == other,
        ids.len() == words.len(),
        forall|k: int|
            0 <= k < words.len() ==> {
                &&& vocabulary.tokens.contains_key(#[trigger] words[k])
                &&& !vocabulary.tokens[words[k]].contains(vocabulary.eos)
                &&& vocabulary.tokens[words[k]].contains(ids[k])
                &&& words[k].len() > 0
            },
        path.len() == words.flatten().len() + 1,
        path[0] == start,
        forall|i: int|
            0 <= i < words.flatten().len() ==> path[i + 1] == dfa.table[path[i] + dfa.classes[(
            #[trigger] words.flatten()[i]) as int]],
        forall|i: int|
            1 <= i < path.len() ==> (#[trigger] path[i]) != 0 && path[i] != dfa.quit,
        forall|k: int|
            1 <= k <= words.len() ==> {
                let state = path[(#[trigger] words.take(k)).flatten().len() as int];
                let end = dfa.table[state + dfa.classes[255] + 1];
                state != 0 && dfa.min_match <= state <= dfa.max_match ==> end != 0 && dfa.min_match
                    <= end <= dfa.max_match
            },
    ensures
        exists|stations: Seq<StateId>|
            #![trigger stations.last()]
            {
                let end = dfa.table[path.last() + dfa.classes[255] + 1];
                &&& stations.len() == ids.len() + 1
                &&& stations[0] == index@.initial_state
                &&& forall|k: int|
                    0 <= k < ids.len() ==> {
                        &&& index@.transitions.contains_key(stations[k])
                        &&& index@.transitions[stations[k]].contains_key(#[trigger] ids[k])
                        &&& stations[k + 1] == index@.transitions[stations[k]][ids[k]]
                    }
                &&& index@.final_states.contains(stations.last()) <==> end != 0 && dfa.min_match
                    <= end <= dfa.max_match
                &&& index@.transitions.contains_key(stations.last())
                    && index@.transitions[stations.last()].contains_key(vocabulary.eos) <==> end
                    != 0 && dfa.min_match <= end <= dfa.max_match
            },
{
    lemma_unshared(vocabulary);
    assert forall|k: int| 0 <= k < words.len() implies vocabulary.bears(
        #[trigger] words[k],
        ids[k],
    ) && words[k].len() > 0 by {}
    lemma_spelled_out(dfa, vocabulary, words, path);
    assert forall|k: int| 1 <= k <= words.len() implies may_end(
        dfa,
        path[(#[trigger] words.take(k)).flatten().len() as int],
    ) by {}
    let stations = lemma_generated(dfa, vocabulary, start, index, words, ids, path);
    let end = dfa.table[path.last() + dfa.classes[255] + 1];
    assert(matched(dfa, path.last()) <==> end != 0 && dfa.min_match <= end <= dfa.max_match);
    assert(index@.final_states.contains(stations.last()) <==> end != 0 && dfa.min_match <= end
        <= dfa.max_match);
}

proof fn lemma_unshared(vocabulary: VocabularyView)
    requires
        forall|one: Seq<u8>, other: Seq<u8>, id: TokenId|
            #![trigger vocabulary.tokens[one].contains(id), vocabulary.tokens[other].contains(id)]
            {
                &&& vocabulary.tokens.contains_key(one)
                &&& !vocabulary.tokens[one].contains(vocabulary.eos)
                &&& vocabulary.tokens[one].contains(id)
                &&& vocabulary.tokens.contains_key(other)
                &&& !vocabulary.tokens[other].contains(vocabulary.eos)
                &&& vocabulary.tokens[other].contains(id)
            } ==> one == other,
    ensures
        vocabulary.unambiguous(),
{
}

proof fn lemma_generated(
    dfa: DenseDfa,
    vocabulary: VocabularyView,
    start: StateId,
    index: Index,
    words: Seq<Seq<u8>>,
    ids: Seq<TokenId>,
    path: Seq<StateId>,
) -> (stations: Seq<StateId>)
    requires
        is_outcome(Ok(dfa), vocabulary, Ok(index)) || is_optimized_outcome(
            Ok(dfa),
            vocabulary,
            Ok(index),
        ),
        dfa.start == Some(start),
        vocabulary.unambiguous(),
        ids.len() == words.len(),
        forall|k: int|
            0 <= k < words.len() ==> vocabulary.bears(#[trigger] words[k], ids[k])
                && words[k].len() > 0,
        reading(dfa, words.flatten(), path),
        path[0] == start,
        forall|k: int|
            1 <= k <= words.len() ==> may_end(
                dfa,
                path[(#[trigger] words.take(k)).flatten().len() as int],
            ),
    ensures
        is_run(index@, ids, stations),
        index@.final_states.contains(stations.last()) <==> matched(dfa, path.last()),
        index@.transitions.contains_key(stations.last())
            && index@.transitions[stations.last()].contains_key(vocabulary.eos) <==> matched(
            dfa,
            path.last(),
        ),
{
    assert(names(vocabulary, ids, words));
    lemma_reading_advances(dfa, words, path);
    if is_outcome(Ok(dfa), vocabulary, Ok(index)) {
        lemma_run(dfa, vocabulary, start, index@, ids, words);
        assert(index@.allows(path.last(), vocabulary.eos) <==> dfa.accepts(path.last()));
    } else {
        let numbers = choose|numbers: Map<StateId, StateId>|
            is_numbered_index(dfa, vocabulary, start, numbers, index@);
        lemma_run_numbered(dfa, vocabulary, start, numbers, index@, ids, words);
        lemma_numbered_end(dfa, vocabulary, start, numbers, index@, path.last());
    }
    lemma_stations(index@, ids)
}

/// A numbered state is final, and allows the end of the sequence, exactly if the text has matched.
proof fn lemma_numbered_end(
    dfa: DenseDfa,
    vocabulary: VocabularyView,
    start: StateId,
    numbers: Map<StateId, StateId>,
    index: IndexView,
    state: StateId,
)
    requires
        is_numbered_index(dfa, vocabulary, start, numbers, index),
        numbers.contains_key(state),
    ensures
        index.final_states.contains(numbers[state]) <==> matched(dfa, state),
        index.transitions.contains_key(numbers[state]) && index.transitions[numbers[state]].contains_key(
            vocabulary.eos,
        ) <==> matched(dfa, state),
        matched(dfa, state) ==> index.transitions[numbers[state]][vocabulary.eos] == numbers[state],
{
    let n = numbers[state];
    if index.final_states.contains(n) {
        let other = choose|other: StateId| #[trigger]
            numbers.contains_key(other) && numbers[other] == n && dfa.accepts(other);
        assert(other == state);
    }
    assert(index.row(n).contains_key(vocabulary.eos) <==> dfa.accepts(state));
}

/// Whether `words` are tokens with the identifiers `ids`, `path` is what is gone through when they
/// are read one after the other, and each may end where it ends.
spec fn is_spelled(
    dfa: DenseDfa,
    vocabulary: VocabularyView,
    start: StateId,
    ids: Seq<TokenId>,
    words: Seq<Seq<u8>>,
    path: Seq<StateId>,
) -> bool {
    &&& words.len() == ids.len()
    &&& forall|k: int|
        0 <= k < words.len() ==> is_text(vocabulary, #[trigger] words[k])
            && vocabulary.tokens[words[k]].contains(ids[k])
    &&& reading(dfa, words.flatten(), path)
    &&& path[0] == start
    &&& forall|k: int|
        1 <= k <= words.len() ==> may_end(
            dfa,
            path[(#[trigger] words.take(k)).flatten().len() as int],
        )
}

/// One token more is read.
proof fn lemma_spelled_further(
    dfa: DenseDfa,
    vocabulary: VocabularyView,
    start: StateId,
    ids: Seq<TokenId>,
    words: Seq<Seq<u8>>,
    path: Seq<StateId>,
    id: TokenId,
    token: Seq<u8>,
) -> (longer: Seq<StateId>)
    requires
        is_spelled(dfa, vocabulary, start, ids, words, path),
        vocabulary.bears(token, id),
        admits(dfa, path.last(), token),
    ensures
        is_spelled(dfa, vocabulary, start, ids.push(id), words.push(token), longer),
        dfa.walk(path.last(), token) == Some(longer.last()),
{
    let more = words.push(token);
    let text = words.flatten();
    let tail = lemma_walk_is_reading(dfa, path.last(), token);
    let longer = lemma_readings_join(dfa, text, token, path, tail);
    lemma_joined(more);
    assert(more.drop_last() =~= words);
    assert forall|k: int| 0 <= k < more.len() implies is_text(vocabulary, #[trigger] more[k])
        && vocabulary.tokens[more[k]].contains(ids.push(id)[k]) by {
        if k < words.len() {
            assert(is_text(vocabulary, words[k]));
        }
    }
    assert forall|k: int| 1 <= k <= more.len() implies may_end(
        dfa,
        longer[(#[trigger] more.take(k)).flatten().len() as int],
    ) by {
        if k <= words.len() {
            assert(more.take(k) =~= words.take(k));
            lemma_cut(words, k);
            let n = words.take(k).flatten().len() as int;
            assert(longer.take((text.len() + 1) as int)[n] == path[n]);
            assert(may_end(dfa, path[n]));
        } else {
            assert(more.take(k) =~= more);
            assert(longer[more.flatten().len() as int] == longer.last());
        }
    }
    longer
}

proof fn lemma_run_cut(index: IndexView, ids: Seq<TokenId>, stations: Seq<StateId>)
    requires
        is_run(index, ids, stations),
        ids.len() > 0,
    ensures
        is_run(index, ids.drop_last(), stations.drop_last()),
        index.allows(stations.drop_last().last(), ids.last()),
        stations.last() == index.transitions[stations.drop_last().last()][ids.last()],
{
    let n = ids.len() - 1;
    let shorter = stations.drop_last();
    let before = ids.drop_last();
    assert forall|k: int| 0 <= k < before.len() implies index.transitions.contains_key(
        #[trigger] shorter[k],
    ) by {
        assert(shorter[k] == stations[k]);
    }
    assert forall|k: int| 0 <= k < before.len() implies {
        &&& index.transitions[shorter[k]].contains_key(#[trigger] before[k])
        &&& shorter[k + 1] == index.transitions[shorter[k]][before[k]]
    } by {
        assert(before[k] == ids[k]);
    }
    assert(shorter[0] == stations[0]);
    assert(index.transitions.contains_key(stations[n]));
    assert(ids[n] == ids.last());
    assert(stations[n + 1] == stations.last());
}

/// A run of an index over the states of an automaton spells a text.
proof fn lemma_run_spelled(
    dfa: DenseDfa,
    vocabulary: VocabularyView,
    start: StateId,
    index: IndexView,
    ids: Seq<TokenId>,
    stations: Seq<StateId>,
) -> (found: (Seq<Seq<u8>>, Seq<StateId>))
    requires
        is_index(dfa, vocabulary, start, index),
        is_run(index, ids, stations),
        forall|k: int| 0 <= k < ids.len() ==> #[trigger] ids[k] != vocabulary.eos,
    ensures
        is_spelled(dfa, vocabulary, start, ids, found.0, found.1),
        found.1.last() == stations.last(),
    decreases ids.len(),
{
    if ids.len() == 0 {
        let words: Seq<Seq<u8>> = Seq::empty();
        let path = seq![start];
        assert(is_spelled(dfa, vocabulary, start, ids, words, path));
        (words, path)
    } else {
        let before = ids.drop_last();
        let id = ids.last();
        lemma_run_cut(index, ids, stations);
        assert forall|k: int| 0 <= k < before.len() implies #[trigger] before[k]
            != vocabulary.eos by {
            assert(before[k] == ids[k]);
        }
        let (words, path) = lemma_run_spelled(
            dfa,
            vocabulary,
            start,
            index,
            before,
            stations.drop_last(),
        );
        let state = path.last();
        let to = stations.last();
        assert(ids[ids.len() - 1] != vocabulary.eos);
        assert(offers(dfa, vocabulary, state, id, to));
        let token = choose|token: Seq<u8>| #[trigger]
            vocabulary.bears(token, id) && dfa.walk(state, token) == Some(to) && dfa.keeps(to);
        let longer = lemma_spelled_further(
            dfa,
            vocabulary,
            start,
            before,
            words,
            path,
            id,
            token,
        );
        assert(before.push(id) =~= ids);
        (words.push(token), longer)
    }
}

/// A run of an index over numbered states spells a text.
proof fn lemma_numbered_run_spelled(
    dfa: DenseDfa,
    vocabulary: VocabularyView,
    start: StateId,
    numbers: Map<StateId, StateId>,
    index: IndexView,
    ids: Seq<TokenId>,
    stations: Seq<StateId>,
) -> (found: (Seq<Seq<u8>>, Seq<StateId>))
    requires
        is_numbered_index(dfa, vocabulary, start, numbers, index),
        is_run(index, ids, stations),
        forall|k: int| 0 <= k < ids.len() ==> #[trigger] ids[k] != vocabulary.eos,
    ensures
        is_spelled(dfa, vocabulary, start, ids, found.0, found.1),
        numbers.contains_key(found.1.last()),
        numbers[found.1.last()] == stations.last(),
    decreases ids.len(),
{
    let hop = kept_graph(dfa, vocabulary);
    if ids.len() == 0 {
        let words: Seq<Seq<u8>> = Seq::empty();
        let path = seq![start];
        assert(is_spelled(dfa, vocabulary, start, ids, words, path));
        lemma_reaches_itself(hop, start);
        (words, path)
    } else {
        let before = ids.drop_last();
        let id = ids.last();
        let pool = grouped_tokens(vocabulary);
        lemma_run_cut(index, ids, stations);
        assert forall|k: int| 0 <= k < before.len() implies #[trigger] before[k]
            != vocabulary.eos by {
            assert(before[k] == ids[k]);
        }
        let (words, path) = lemma_numbered_run_spelled(
            dfa,
            vocabulary,
            start,
            numbers,
            index,
            before,
            stations.drop_last(),
        );
        let state = path.last();
        let row = index.row(numbers[state]).remove(vocabulary.eos);
        assert(is_numbered_row(dfa, vocabulary, pool, numbers, state, row));
        assert(ids[ids.len() - 1] != vocabulary.eos);
        assert(row.contains_key(id));
        let token = choose|token: Seq<u8>| #[trigger]
            decides(dfa, vocabulary, pool, state, id, token) && row[id] == numbers[dfa.walk(
                state,
                token,
            ).unwrap()];
        let longer = lemma_spelled_further(
            dfa,
            vocabulary,
            start,
            before,
            words,
            path,
            id,
            token,
        );
        assert(hop(state, longer.last()));
        lemma_reaches_further(hop, start, state, longer.last());
        assert(before.push(id) =~= ids);
        (words.push(token), longer)
    }
}

/// Whatever leads from state to state of an index, optimized or not, spells a text: the identifiers
/// are those of tokens that are read one after the other and may each end where they end. The last
/// state is final, and allows the end of the sequence, exactly if that text has matched; and it
/// allows every identifier of every token, whatever its length and its bytes, that is not empty, can
/// be read next, and may end where it then ends.
pub proof fn law_runs_spell_texts(
    dfa: DenseDfa,
    vocabulary: VocabularyView,
    start: StateId,
    index: Index,
    ids: Seq<TokenId>,
    stations: Seq<StateId>,
)
    requires
        is_outcome(Ok(dfa), vocabulary, Ok(index)) || is_optimized_outcome(
            Ok(dfa),
            vocabulary,
            Ok(index),
        ),
        dfa.start == Some(start),
        stations.len() == ids.len() + 1,
        stations[0] == index@.initial_state,
        forall|k: int|
            0 <= k < ids.len() ==> index@.transitions.contains_key(#[trigger] stations[k]),
        forall|k: int|
            0 <= k < ids.len() ==> {
                &&& #[trigger] ids[k] != vocabulary.eos
                &&& index@.transitions[stations[k]].contains_key(ids[k])
                &&& stations[k + 1] == index@.transitions[stations[k]][ids[k]]
            },
    ensures
        exists|words: Seq<Seq<u8>>, path: Seq<StateId>|
            #![trigger words.flatten(), path.last()]
            {
                let end = dfa.table[path.last() + dfa.classes[255] + 1];
                &&& words.len() == ids.len()
                &&& forall|k: int|
                    0 <= k < words.len() ==> {
                        &&& vocabulary.tokens.contains_key(#[trigger] words[k])
                        &&& !vocabulary.tokens[words[k]].contains(vocabulary.eos)
                        &&& vocabulary.tokens[words[k]].contains(ids[k])
                    }
                &&& path.len() == words.flatten().len() + 1
                &&& path[0] == start
                &&& forall|i: int|
                    0 <= i < words.flatten().len() ==> path[i + 1] == dfa.table[path[i] + dfa.classes[(
                    #[trigger] words.flatten()[i]) as int]]
                &&& forall|i: int|
                    1 <= i < path.len() ==> (#[trigger] path[i]) != 0 && path[i] != dfa.quit
                &&& forall|k: int|
                    1 <= k <= words.len() ==> {
                        let state = path[(#[trigger] words.take(k)).flatten().len() as int];
                        let after = dfa.table[state + dfa.classes[255] + 1];
                        state != 0 && dfa.min_match <= state <= dfa.max_match ==> after != 0
                            && dfa.min_match <= after <= dfa.max_match
                    }
                &&& index@.final_states.contains(stations.last()) <==> end != 0 && dfa.min_match
                    <= end <= dfa.max_match
                &&& index@.transitions.contains_key(stations.last())
                    && index@.transitions[stations.last()].contains_key(vocabulary.eos) <==> end
                    != 0 && dfa.min_match <= end <= dfa.max_match
                &&& forall|token: Seq<u8>, id: TokenId|
                    #![trigger vocabulary.tokens[token].contains(id)]
                    {
                        &&& vocabulary.tokens.contains_key(token)
                        &&& !vocabulary.tokens[token].contains(vocabulary.eos)
                        &&& vocabulary.tokens[token].contains(id)
                        &&& token.len() > 0
                        &&& dfa.walk(path.last(), token) matches Some(state)
                        &&& state != 0 && dfa.min_match <= state <= dfa.max_match ==> {
                            let after = dfa.table[state + dfa.classes[255] + 1];
                            after != 0 && dfa.min_match <= after <= dfa.max_match
                        }
                    } ==> {
                        &&& index@.transitions.contains_key(stations.last())
                        &&& index@.transitions[stations.last()].contains_key(id)
                    }
            },
{
    let (words, path) = lemma_outcome_spelled(dfa, vocabulary, start, index, ids, stations);
    assert forall|token: Seq<u8>, id: TokenId|
        #![trigger vocabulary.tokens[token].contains(id)]
        {
            &&& vocabulary.tokens.contains_key(token)
            &&& !vocabulary.tokens[token].contains(vocabulary.eos)
            &&& vocabulary.tokens[token].contains(id)
            &&& token.len() > 0
            &&& dfa.walk(path.last(), token) matches Some(state)
            &&& state != 0 && dfa.min_match <= state <= dfa.max_match ==> {
                let after = dfa.table[state + dfa.classes[255] + 1];
                after != 0 && dfa.min_match <= after <= dfa.max_match
            }
        } implies {
            &&& index@.transitions.contains_key(stations.last())
            &&& index@.transitions[stations.last()].contains_key(id)
        } by {
        assert(admits(dfa, path.last(), token));
        assert(vocabulary.bears(token, id));
    }
    assert forall|k: int| 0 <= k < words.len() implies {
        &&& vocabulary.tokens.contains_key(#[trigger] words[k])
        &&& !vocabulary.tokens[words[k]].contains(vocabulary.eos)
        &&& vocabulary.tokens[words[k]].contains(ids[k])
    } by {
        assert(is_text(vocabulary, words[k]));
    }
    assert forall|k: int| 1 <= k <= words.len() implies {
        let state = path[(#[trigger] words.take(k)).flatten().len() as int];
        let after = dfa.table[state + dfa.classes[255] + 1];
        state != 0 && dfa.min_match <= state <= dfa.max_match ==> after != 0 && dfa.min_match
            <= after <= dfa.max_match
    } by {
        assert(may_end(dfa, path[words.take(k).flatten().len() as int]));
    }
    assert(matched(dfa, path.last()) <==> {
        let end = dfa.table[path.last() + dfa.classes[255] + 1];
        end != 0 && dfa.min_match <= end <= dfa.max_match
    });
    assert(reading(dfa, words.flatten(), path));
}

proof fn lemma_outcome_spelled(
    dfa: DenseDfa,
    vocabulary: VocabularyView,
    start: StateId,
    index: Index,
    ids: Seq<TokenId>,
    stations: Seq<StateId>,
) -> (found: (Seq<Seq<u8>>, Seq<StateId>))
    requires
        is_outcome(Ok(dfa), vocabulary, Ok(index)) || is_optimized_outcome(
            Ok(dfa),
            vocabulary,
            Ok(index),
        ),
        dfa.start == Some(start),
        is_run(index@, ids, stations),
        forall|k: int| 0 <= k < ids.len() ==> #[trigger] ids[k] != vocabulary.eos,
    ensures
        is_spelled(dfa, vocabulary, start, ids, found.0, found.1),
        index@.final_states.contains(stations.last()) <==> matched(dfa, found.1.last()),
        index@.transitions.contains_key(stations.last())
            && index@.transitions[stations.last()].contains_key(vocabulary.eos) <==> matched(
            dfa,
            found.1.last(),
        ),
        forall|token: Seq<u8>, id: TokenId| #[trigger]
            vocabulary.bears(token, id) && token.len() > 0 && admits(dfa, found.1.last(), token)
                ==> index@.allows(stations.last(), id),
{
    let last = stations.last();
    if is_outcome(Ok(dfa), vocabulary, Ok(index)) {
        let (words, path) = lemma_run_spelled(dfa, vocabulary, start, index@, ids, stations);
        lemma_reading_reaches(dfa, vocabulary, words, path);
        assert(index@.allows(last, vocabulary.eos) <==> dfa.accepts(last));
        assert forall|token: Seq<u8>, id: TokenId| #[trigger]
            vocabulary.bears(token, id) && token.len() > 0 && admits(
                dfa,
                path.last(),
                token,
            ) implies index@.allows(last, id) by {
            assert(offers(dfa, vocabulary, last, id, dfa.walk(last, token).unwrap()));
        }
        (words, path)
    } else {
        let numbers = choose|numbers: Map<StateId, StateId>|
            is_numbered_index(dfa, vocabulary, start, numbers, index@);
        let (words, path) = lemma_numbered_run_spelled(
            dfa,
            vocabulary,
            start,
            numbers,
            index@,
            ids,
            stations,
        );
        let state = path.last();
        lemma_numbered_end(dfa, vocabulary, start, numbers, index@, state);
        let pool = grouped_tokens(vocabulary);
        let row = index@.row(numbers[state]).remove(vocabulary.eos);
        assert(is_numbered_row(dfa, vocabulary, pool, numbers, state, row));
        assert forall|token: Seq<u8>, id: TokenId| #[trigger]
            vocabulary.bears(token, id) && token.len() > 0 && admits(
                dfa,
                state,
                token,
            ) implies index@.allows(last, id) by {
            assert(pool.contains(token));
            assert(row.contains_key(id));
        }
        (words, path)
    }
}

/// The states of an optimized index are numbered from zero on without gaps, no two alike, and the
/// first is the state in which the automaton starts.
pub proof fn law_states_are_numbered(
    dfa: DenseDfa,
    vocabulary: VocabularyView,
    start: StateId,
    numbers: Map<StateId, StateId>,
    index: IndexView,
)
    requires
        is_numbered_index(dfa, vocabulary, start, numbers, index),
    ensures
        index.initial_state == 0,
        index.eos_token_id == vocabulary.eos,
        numbers.contains_key(start),
        numbers[start] == 0,
        forall|s: StateId| #[trigger] numbers.contains_key(s) ==> numbers[s] < numbers.dom().len(),
        forall|s: StateId, t: StateId| #[trigger]
            numbers.contains_key(s) && #[trigger] numbers.contains_key(t) && s != t ==> numbers[s]
                != numbers[t],
        forall|n: StateId| n < numbers.dom().len() ==> #[trigger] numbers.contains_value(n),
        forall|n: StateId| #[trigger]
            index.transitions.contains_key(n) ==> n < numbers.dom().len() && index.transitions[n]
                != Map::<TokenId, StateId>::empty(),
        forall|n: StateId| #[trigger]
            index.final_states.contains(n) ==> n < numbers.dom().len(),
{
    lemma_reaches_itself(kept_graph(dfa, vocabulary), start);
    assert forall|n: StateId| #[trigger] index.transitions.contains_key(n) implies n
        < numbers.dom().len() && index.transitions[n] != Map::<TokenId, StateId>::empty() by {
        let id = choose|id: TokenId| index.allows(n, id);
        assert(index.transitions[n].contains_key(id));
    }
}

/// In an optimized index, an identifier leads to where some token that has it ends, if it can be
/// read and may end there. Of the tokens that have the identifier, can be read, may end where they
/// end, and begin with bytes of the same two classes, it is one of the shortest. Tokens of one byte
/// go with those whose second byte is of class zero.
pub proof fn law_shortest_token_decides(
    dfa: DenseDfa,
    vocabulary: VocabularyView,
    start: StateId,
    numbers: Map<StateId, StateId>,
    index: IndexView,
    state: StateId,
    id: TokenId,
)
    requires
        is_numbered_index(dfa, vocabulary, start, numbers, index),
        numbers.contains_key(state),
        index.transitions.contains_key(numbers[state]),
        index.transitions[numbers[state]].contains_key(id),
        id != vocabulary.eos,
    ensures
        exists|token: Seq<u8>|
            #![trigger vocabulary.tokens[token]]
            {
                &&& vocabulary.tokens.contains_key(token)
                &&& !vocabulary.tokens[token].contains(vocabulary.eos)
                &&& vocabulary.tokens[token].contains(id)
                &&& token.len() > 0
                &&& dfa.walk(state, token) matches Some(to)
                &&& to != 0 && dfa.min_match <= to <= dfa.max_match ==> {
                    let end = dfa.table[to + dfa.classes[255] + 1];
                    end != 0 && dfa.min_match <= end <= dfa.max_match
                }
                &&& numbers.contains_key(to)
                &&& index.transitions[numbers[state]][id] == numbers[to]
                &&& forall|other: Seq<u8>|
                    #![trigger vocabulary.tokens[other].contains(id)]
                    {
                        &&& vocabulary.tokens.contains_key(other)
                        &&& !vocabulary.tokens[other].contains(vocabulary.eos)
                        &&& vocabulary.tokens[other].contains(id)
                        &&& other.len() > 0
                        &&& dfa.classes[other[0] as int] == dfa.classes[token[0] as int]
                        &&& (if other.len() > 1 {
                            dfa.classes[other[1] as int]
                        } else {
                            0
                        }) == (if token.len() > 1 {
                            dfa.classes[token[1] as int]
                        } else {
                            0
                        })
                        &&& dfa.walk(state, other) matches Some(end)
                        &&& end != 0 && dfa.min_match <= end <= dfa.max_match ==> {
                            let after = dfa.table[end + dfa.classes[255] + 1];
                            after != 0 && dfa.min_match <= after <= dfa.max_match
                        }
                    } ==> token.len() <= other.len()
            },
{
    let pool = grouped_tokens(vocabulary);
    let hop = kept_graph(dfa, vocabulary);
    let row = index.row(numbers[state]).remove(vocabulary.eos);
    assert(is_numbered_row(dfa, vocabulary, pool, numbers, state, row));
    assert(row.contains_key(id));
    let token = choose|token: Seq<u8>| #[trigger]
        decides(dfa, vocabulary, pool, state, id, token) && row[id] == numbers[dfa.walk(
            state,
            token,
        ).unwrap()];
    let to = dfa.walk(state, token).unwrap();
    assert(hop(state, to));
    lemma_reaches_further(hop, start, state, to);
    assert(numbers.contains_key(to));
    assert(dfa.keeps(to));
    assert(vocabulary.tokens[token].contains(id));
    assert forall|other: Seq<u8>|
        #![trigger vocabulary.tokens[other].contains(id)]
        {
            &&& vocabulary.tokens.contains_key(other)
            &&& !vocabulary.tokens[other].contains(vocabulary.eos)
            &&& vocabulary.tokens[other].contains(id)
            &&& other.len() > 0
            &&& dfa.classes[other[0] as int] == dfa.classes[token[0] as int]
            &&& (if other.len() > 1 {
                dfa.classes[other[1] as int]
            } else {
                0
            }) == (if token.len() > 1 {
                dfa.classes[token[1] as int]
            } else {
                0
            })
            &&& dfa.walk(state, other) matches Some(end)
            &&& end != 0 && dfa.min_match <= end <= dfa.max_match ==> {
                let after = dfa.table[end + dfa.classes[255] + 1];
                after != 0 && dfa.min_match <= after <= dfa.max_match
            }
        } implies token.len() <= other.len() by {
        assert(vocabulary.bears(other, id));
        assert(pool.contains(other));
        assert(admits(dfa, state, other));
        assert(same_group(dfa, token, other));
    }
}

/// Whether `words` are tokens, none of them empty, `path` is what is gone through when they are read
/// one after the other, and each may end where it ends.
spec fn is_kept_reading(
    dfa: DenseDfa,
    vocabulary: VocabularyView,
    words: Seq<Seq<u8>>,
    path: Seq<StateId>,
) -> bool {
    &&& forall|k: int|
        0 <= k < words.len() ==> is_text(vocabulary, #[trigger] words[k]) && words[k].len() > 0
    &&& reading(dfa, words.flatten(), path)
    &&& forall|k: int|
        1 <= k <= words.len() ==> may_end(
            dfa,
            path[(#[trigger] words.take(k)).flatten().len() as int],
        )
}

/// Whether a reading of tokens that may each end where they end leads from `start` to `state`.
spec fn has_kept_reading(
    dfa: DenseDfa,
    vocabulary: VocabularyView,
    start: StateId,
    state: StateId,
) -> bool {
    exists|found: (Seq<Seq<u8>>, Seq<StateId>)|
        found.1[0] == start && found.1.last() == state && #[trigger] is_kept_reading(
            dfa,
            vocabulary,
            found.0,
            found.1,
        )
}

proof fn lemma_kept_reading_further(
    dfa: DenseDfa,
    vocabulary: VocabularyView,
    words: Seq<Seq<u8>>,
    path: Seq<StateId>,
    token: Seq<u8>,
) -> (longer: Seq<StateId>)
    requires
        is_kept_reading(dfa, vocabulary, words, path),
        grouped_tokens(vocabulary).contains(token),
        admits(dfa, path.last(), token),
    ensures
        is_kept_reading(dfa, vocabulary, words.push(token), longer),
        longer[0] == path[0],
        dfa.walk(path.last(), token) == Some(longer.last()),
{
    let more = words.push(token);
    let text = words.flatten();
    let tail = lemma_walk_is_reading(dfa, path.last(), token);
    let longer = lemma_readings_join(dfa, text, token, path, tail);
    lemma_joined(more);
    assert(more.drop_last() =~= words);
    assert forall|k: int| 0 <= k < more.len() implies is_text(vocabulary, #[trigger] more[k])
        && more[k].len() > 0 by {
        if k < words.len() {
            assert(is_text(vocabulary, words[k]));
        }
    }
    assert forall|k: int| 1 <= k <= more.len() implies may_end(
        dfa,
        longer[(#[trigger] more.take(k)).flatten().len() as int],
    ) by {
        if k <= words.len() {
            assert(more.take(k) =~= words.take(k));
            lemma_cut(words, k);
            let n = words.take(k).flatten().len() as int;
            assert(longer.take((text.len() + 1) as int)[n] == path[n]);
            assert(may_end(dfa, path[n]));
        } else {
            assert(more.take(k) =~= more);
            assert(longer[more.flatten().len() as int] == longer.last());
        }
    }
    longer
}

proof fn lemma_kept_readings_reach(
    dfa: DenseDfa,
    vocabulary: VocabularyView,
    words: Seq<Seq<u8>>,
    path: Seq<StateId>,
)
    requires
        is_kept_reading(dfa, vocabulary, words, path),
    ensures
        reaches(kept_graph(dfa, vocabulary), path[0], path.last()),
    decreases words.len(),
{
    let hop = kept_graph(dfa, vocabulary);
    lemma_joined(words);
    if words.len() == 0 {
        assert(words.flatten().len() == 0);
        lemma_reaches_itself(hop, path[0]);
    } else {
        let n = words.drop_last().flatten().len() as int;
        lemma_kept_reading_cut(dfa, vocabulary, words, path);
        lemma_kept_readings_reach(dfa, vocabulary, words.drop_last(), path.take(n + 1));
        assert(is_text(vocabulary, words[words.len() - 1]));
        assert(grouped_tokens(vocabulary).contains(words.last()));
        assert(hop(path[n], path.last()));
        lemma_reaches_further(hop, path[0], path[n], path.last());
    }
}

/// A state of an optimized index is one that tokens lead to, none of them empty, that are read one
/// after the other and may each end where they end.
pub proof fn law_numbered_states_are_reached(
    dfa: DenseDfa,
    vocabulary: VocabularyView,
    start: StateId,
    numbers: Map<StateId, StateId>,
    index: IndexView,
    state: StateId,
)
    requires
        is_numbered_index(dfa, vocabulary, start, numbers, index),
        numbers.contains_key(state),
    ensures
        exists|words: Seq<Seq<u8>>, path: Seq<StateId>|
            #![trigger words.flatten(), path.last()]
            {
                &&& forall|k: int|
                    0 <= k < words.len() ==> {
                        &&& vocabulary.tokens.contains_key(#[trigger] words[k])
                        &&& !vocabulary.tokens[words[k]].contains(vocabulary.eos)
                        &&& words[k].len() > 0
                    }
                &&& path.len() == words.flatten().len() + 1
                &&& path[0] == start
                &&& path.last() == state
                &&& forall|i: int|
                    0 <= i < words.flatten().len() ==> path[i + 1] == dfa.table[path[i] + dfa.classes[(
                    #[trigger] words.flatten()[i]) as int]]
                &&& forall|i: int|
                    1 <= i < path.len() ==> (#[trigger] path[i]) != 0 && path[i] != dfa.quit
                &&& forall|k: int|
                    1 <= k <= words.len() ==> {
                        let middle = path[(#[trigger] words.take(k)).flatten().len() as int];
                        let end = dfa.table[middle + dfa.classes[255] + 1];
                        middle != 0 && dfa.min_match <= middle <= dfa.max_match ==> end != 0
                            && dfa.min_match <= end <= dfa.max_match
                    }
            },
{
    let hop = kept_graph(dfa, vocabulary);
    let good = Set::new(|s: StateId| has_kept_reading(dfa, vocabulary, start, s));
    let none: Seq<Seq<u8>> = Seq::empty();
    let here = (none, seq![start]);
    assert(is_kept_reading(dfa, vocabulary, here.0, here.1));
    assert(good.contains(start));
    assert forall|a: StateId, b: StateId| good.contains(a) && #[trigger] hop(
        a,
        b,
    ) implies good.contains(b) by {
        let found = choose|found: (Seq<Seq<u8>>, Seq<StateId>)|
            found.1[0] == start && found.1.last() == a && #[trigger] is_kept_reading(
                dfa,
                vocabulary,
                found.0,
                found.1,
            );
        let token = choose|token: Seq<u8>| #[trigger]
            grouped_tokens(vocabulary).contains(token) && admits(dfa, a, token) && dfa.walk(
                a,
                token,
            ) == Some(b);
        let longer = lemma_kept_reading_further(dfa, vocabulary, found.0, found.1, token);
        let there = (found.0.push(token), longer);
        assert(is_kept_reading(dfa, vocabulary, there.0, there.1));
    }
    lemma_reached_within(hop, good, start, state);
    let found = choose|found: (Seq<Seq<u8>>, Seq<StateId>)|
        found.1[0] == start && found.1.last() == state && #[trigger] is_kept_reading(
            dfa,
            vocabulary,
            found.0,
            found.1,
        );
    let words = found.0;
    let path = found.1;
    assert forall|k: int| 0 <= k < words.len() implies {
        &&& vocabulary.tokens.contains_key(#[trigger] words[k])
        &&& !vocabulary.tokens[words[k]].contains(vocabulary.eos)
        &&& words[k].len() > 0
    } by {
        assert(is_text(vocabulary, words[k]));
    }
    assert forall|k: int| 1 <= k <= words.len() implies {
        let middle = path[(#[trigger] words.take(k)).flatten().len() as int];
        let end = dfa.table[middle + dfa.classes[255] + 1];
        middle != 0 && dfa.min_match <= middle <= dfa.max_match ==> end != 0 && dfa.min_match
            <= end <= dfa.max_match
    } by {
        assert(may_end(dfa, path[words.take(k).flatten().len() as int]));
    }
    assert(reading(dfa, words.flatten(), path));
    assert(path.last() == state);
}

/// What tokens lead to, none of them empty, if they are read one after the other and each may end
/// where it ends, is a state of an optimized index. It allows each identifier of the last of them in
/// the state before.
pub proof fn law_optimized_tokens_are_allowed(
    dfa: DenseDfa,
    vocabulary: VocabularyView,
    start: StateId,
    numbers: Map<StateId, StateId>,
    index: IndexView,
    words: Seq<Seq<u8>>,
    path: Seq<StateId>,
)
    requires
        is_numbered_index(dfa, vocabulary, start, numbers, index),
        forall|k: int|
            0 <= k < words.len() ==> {
                &&& vocabulary.tokens.contains_key(#[trigger] words[k])
                &&& !vocabulary.tokens[words[k]].contains(vocabulary.eos)
                &&& words[k].len() > 0
            },
        path.len() == words.flatten().len() + 1,
        path[0] == start,
        forall|i: int|
            0 <= i < words.flatten().len() ==> path[i + 1] == dfa.table[path[i] + dfa.classes[(
            #[trigger] words.flatten()[i]) as int]],
        forall|i: int|
            1 <= i < path.len() ==> (#[trigger] path[i]) != 0 && path[i] != dfa.quit,
        forall|k: int|
            1 <= k <= words.len() ==> {
                let middle = path[(#[trigger] words.take(k)).flatten().len() as int];
                let end = dfa.table[middle + dfa.classes[255] + 1];
                middle != 0 && dfa.min_match <= middle <= dfa.max_match ==> end != 0
                    && dfa.min_match <= end <= dfa.max_match
            },
    ensures
        numbers.contains_key(path.last()),
        ({
            let number = numbers[path.last()];
            let end = dfa.table[path.last() + dfa.classes[255] + 1];
            &&& index.final_states.contains(number) <==> end != 0 && dfa.min_match <= end
                <= dfa.max_match
            &&& index.transitions.contains_key(number) && index.transitions[number].contains_key(
                vocabulary.eos,
            ) <==> end != 0 && dfa.min_match <= end <= dfa.max_match
            &&& index.final_states.contains(number) ==> index.transitions[number][vocabulary.eos]
                == number
        }),
        words.len() > 0 ==> {
            let before = path[words.drop_last().flatten().len() as int];
            &&& numbers.contains_key(before)
            &&& forall|id: TokenId| #[trigger]
                vocabulary.tokens[words.last()].contains(id) ==> index.transitions.contains_key(
                    numbers[before],
                ) && index.transitions[numbers[before]].contains_key(id)
        },
{
    lemma_spelled_out(dfa, vocabulary, words, path);
    assert forall|k: int| 0 <= k < words.len() implies is_text(vocabulary, #[trigger] words[k])
        && words[k].len() > 0 by {}
    assert forall|k: int| 1 <= k <= words.len() implies may_end(
        dfa,
        path[(#[trigger] words.take(k)).flatten().len() as int],
    ) by {}
    assert(is_kept_reading(dfa, vocabulary, words, path));
    lemma_kept_readings_reach(dfa, vocabulary, words, path);
    lemma_numbered_end(dfa, vocabulary, start, numbers, index, path.last());
    if words.len() > 0 {
        let earlier = words.drop_last();
        let token = words.last();
        let n = earlier.flatten().len() as int;
        let before = path[n];
        lemma_kept_reading_cut(dfa, vocabulary, words, path);
        lemma_kept_readings_reach(dfa, vocabulary, earlier, path.take(n + 1));
        let pool = grouped_tokens(vocabulary);
        let row = index.row(numbers[before]).remove(vocabulary.eos);
        assert(numbers.contains_key(before));
        assert(is_numbered_row(dfa, vocabulary, pool, numbers, before, row));
        assert(pool.contains(token)) by {
            assert(is_text(vocabulary, words[words.len() - 1]));
        }
        assert forall|id: TokenId| #[trigger] vocabulary.tokens[token].contains(
            id,
        ) implies index.transitions.contains_key(numbers[before])
            && index.transitions[numbers[before]].contains_key(id) by {
            assert(vocabulary.bears(token, id));
            assert(row.contains_key(id));
        }
    }
}

/// The last of some tokens may be read behind the others.
proof fn lemma_kept_reading_cut(
    dfa: DenseDfa,
    vocabulary: VocabularyView,
    words: Seq<Seq<u8>>,
    path: Seq<StateId>,
)
    requires
        is_kept_reading(dfa, vocabulary, words, path),
        words.len() > 0,
    ensures
        ({
            let n = words.drop_last().flatten().len() as int;
            &&& n < path.len()
            &&& is_kept_reading(dfa, vocabulary, words.drop_last(), path.take(n + 1))
            &&& path.take(n + 1)[0] == path[0]
            &&& path.take(n + 1).last() == path[n]
            &&& admits(dfa, path[n], words.last())
            &&& dfa.walk(path[n], words.last()) == Some(path.last())
        }),
{
    lemma_joined(words);
    let before = words.drop_last();
    let token = words.last();
    let n = before.flatten().len() as int;
    lemma_reading_split(dfa, before.flatten(), token, path);
    let first = path.take(n + 1);
    let second = path.skip(n);
    assert forall|k: int| 0 <= k < before.len() implies is_text(vocabulary, #[trigger] before[k])
        && before[k].len() > 0 by {
        assert(before[k] == words[k]);
    }
    assert forall|k: int| 1 <= k <= before.len() implies may_end(
        dfa,
        first[(#[trigger] before.take(k)).flatten().len() as int],
    ) by {
        assert(before.take(k) =~= words.take(k));
        lemma_cut(before, k);
        assert(may_end(dfa, path[words.take(k).flatten().len() as int]));
    }
    lemma_reading_walks(dfa, token, second);
    assert(words.take(words.len() as int) =~= words);
    assert(may_end(dfa, path[words.take(words.len() as int).flatten().len() as int]));
    assert(path[words.flatten().len() as int] == path.last());
    assert(second[0] == path[n] && second.last() == path.last());
}

} // verus!
