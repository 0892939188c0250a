//! Building an [`Index`] to efficiently map vocabulary tokens to state transitions.

use crate::automaton::{
    accepts, compile, compiled, contents, keeps, universal_start_state, walk, DenseDfa, MAX_STATE,
};
use crate::graph::{
    lemma_bounded_set, lemma_popped, lemma_reached_within, lemma_reaches_further,
    lemma_reaches_itself, reaches,
};
use crate::hashing::{
    map_get, map_insert, map_keys, map_remove, set_clone, set_contains, set_insert, set_items,
};
use crate::primitives::{Error, StateId, Token, TokenId};
use crate::vocabulary::{contains_id, lists, tokens_entries, Vocabulary, VocabularyView};
use regex_automata::dfa::dense::{BuildError, DFA};
use rustc_hash::{FxHashMap, FxHashSet};
use vstd::prelude::*;

verus! {

/// An index as a mathematical value.
#[verifier::ext_equal]
pub struct IndexView {
    /// The state in which processing begins.
    pub initial_state: StateId,
    /// The states in which the text is complete.
    pub final_states: Set<StateId>,
    /// The state that each token leads to, for each state that allows any token.
    pub transitions: Map<StateId, Map<TokenId, StateId>>,
    /// The identifier that ends a sequence.
    pub eos_token_id: TokenId,
}

impl IndexView {
    /// Whether the token `id` is allowed in `state`.
    pub open spec fn allows(self, state: StateId, id: TokenId) -> bool {
        self.transitions.contains_key(state) && self.transitions[state].contains_key(id)
    }

    /// The transitions of `state`.
    pub open spec fn row(self, state: StateId) -> Map<TokenId, StateId> {
        if self.transitions.contains_key(state) {
            self.transitions[state]
        } else {
            Map::empty()
        }
    }

    /// The state that the token `id` leads to from `state`; the end of a sequence leads nowhere.
    pub open spec fn next(self, state: StateId, id: TokenId) -> Option<StateId> {
        if id != self.eos_token_id && self.allows(state, id) {
            Some(self.transitions[state][id])
        } else {
            None
        }
    }
}

/// Whether reading `token` in state `from` leads to state `to`.
pub open spec fn leads(
    dfa: DenseDfa,
    vocabulary: VocabularyView,
    from: StateId,
    token: Seq<u8>,
    to: StateId,
) -> bool {
    vocabulary.usable(token) && dfa.walk(from, token) == Some(to)
}

/// The graph of the states of an automaton whose edges are the tokens of a vocabulary.
pub open spec fn token_graph(dfa: DenseDfa, vocabulary: VocabularyView) -> spec_fn(
    StateId,
    StateId,
) -> bool {
    |from: StateId, to: StateId|
        exists|token: Seq<u8>| #[trigger] leads(dfa, vocabulary, from, token, to)
}

/// Whether some token called `id` may be read in state `from` and then ends in state `to`.
pub open spec fn offers(
    dfa: DenseDfa,
    vocabulary: VocabularyView,
    from: StateId,
    id: TokenId,
    to: StateId,
) -> bool {
    exists|token: Seq<u8>| #[trigger]
        vocabulary.bears(token, id) && dfa.walk(from, token) == Some(to) && dfa.keeps(to)
}

/// Whether `row` holds the transitions of `state`: each identifier that is offered there, with a
/// state that it is offered for.
pub open spec fn is_row(
    dfa: DenseDfa,
    vocabulary: VocabularyView,
    state: StateId,
    row: Map<TokenId, StateId>,
) -> bool {
    &&& forall|id: TokenId| #[trigger]
        row.contains_key(id) ==> offers(dfa, vocabulary, state, id, row[id])
    &&& forall|id: TokenId, to: StateId| #[trigger]
        offers(dfa, vocabulary, state, id, to) ==> row.contains_key(id)
}

/// Whether `index` is an index of `vocabulary` over the states of `dfa` that tokens reach from
/// `start`.
///
/// - The final states are the reached states in which the text is a match.
/// - A reached state allows exactly the identifiers that are offered there, and the end of the
///   sequence if it is final. No other state has transitions, and none has an empty row.
/// - An allowed identifier leads to a state that it is offered for. Where it belongs to several
///   tokens, which of these counts is left open. The end of the sequence stays in its state.
pub open spec fn is_index(
    dfa: DenseDfa,
    vocabulary: VocabularyView,
    start: StateId,
    index: IndexView,
) -> bool {
    let reached = |state: StateId| reaches(token_graph(dfa, vocabulary), start, state);
    &&& index.initial_state == start
    &&& index.eos_token_id == vocabulary.eos
    &&& forall|state: StateId| #[trigger]
        index.final_states.contains(state) <==> reached(state) && dfa.accepts(state)
    &&& forall|state: StateId, id: TokenId| #[trigger]
        index.allows(state, id) <==> reached(state) && if id == vocabulary.eos {
            dfa.accepts(state)
        } else {
            exists|to: StateId| offers(dfa, vocabulary, state, id, to)
        }
    &&& forall|state: StateId, id: TokenId| #[trigger]
        index.allows(state, id) ==> if id == vocabulary.eos {
            index.transitions[state][id] == state
        } else {
            offers(dfa, vocabulary, state, id, index.transitions[state][id])
        }
    &&& forall|state: StateId| #[trigger]
        index.transitions.contains_key(state) ==> exists|id: TokenId| index.allows(state, id)
}

/// The contents of the rows of a transition map.
pub open spec fn row_views(rows: Map<StateId, FxHashMap<TokenId, StateId>>) -> Map<
    StateId,
    Map<TokenId, StateId>,
> {
    rows.map_values(|row: FxHashMap<TokenId, StateId>| row@)
}

/// `Index` efficiently maps vocabulary tokens to state transitions.
///
/// It records, for every state of a finite-state automaton that tokens reach, which tokens may
/// come next and where they lead:
///
/// ```text
/// transitions = {
///    1: {10: 2, 15: 3},
///    2: {20: 4, 25: 3},
///    3: {30: 4},
///    4: {40: 4},
/// }
/// ```
#[derive(Debug, PartialEq)]
pub struct Index {
    /// The state in which processing begins.
    initial_state: StateId,
    /// The states in which the text is complete.
    final_states: FxHashSet<StateId>,
    /// The state that each token leads to, for each state that allows any token.
    transitions: FxHashMap<StateId, FxHashMap<TokenId, StateId>>,
    /// The identifier that ends a sequence.
    eos_token_id: TokenId,
}

/// Whether `outcome` is what building an `Index` comes to, given what became of the regular
/// expression.
///
/// - Without an automaton the reason is reported, and that very reason.
/// - An automaton without a start state is reported as such.
/// - In any other case there is an index, whatever the vocabulary holds.
pub open spec fn is_outcome(
    built: Result<DenseDfa, BuildError>,
    vocabulary: VocabularyView,
    outcome: Result<Index, Error>,
) -> bool {
    match built {
        Ok(dfa) => match dfa.start {
            Some(start) => outcome matches Ok(index) && is_index(dfa, vocabulary, start, index@),
            None => outcome matches Err(error) && error == Error::DfaHasNoStartState,
        },
        Err(reason) => outcome matches Err(error) && error == Error::IndexDfaError(
            Box::new(reason),
        ),
    }
}

impl View for Index {
    type V = IndexView;

    closed spec fn view(&self) -> IndexView {
        IndexView {
            initial_state: self.initial_state,
            final_states: self.final_states@,
            transitions: row_views(self.transitions@),
            eos_token_id: self.eos_token_id,
        }
    }
}

impl Clone for Index {
    fn clone(&self) -> (copy: Self)
        ensures
            copy@ == self@,
    {
        Index {
            initial_state: self.initial_state,
            final_states: set_clone(&self.final_states),
            transitions: self.transitions.clone(),
            eos_token_id: self.eos_token_id,
        }
    }
}

/// What is known of an exploration that has seen the states `seen` and has yet to visit the
/// states `pending`.
spec fn explored(
    dfa: DenseDfa,
    vocabulary: VocabularyView,
    start: StateId,
    seen: Set<StateId>,
    pending: Seq<StateId>,
) -> bool {
    &&& seen.contains(start)
    &&& forall|s: StateId| #[trigger]
        seen.contains(s) ==> dfa.is_state(s) && reaches(token_graph(dfa, vocabulary), start, s)
    &&& pending.no_duplicates()
    &&& forall|s: StateId| #[trigger] pending.contains(s) ==> seen.contains(s)
    &&& forall|s: StateId, t: StateId|
        seen.contains(s) && !pending.contains(s) && #[trigger] token_graph(dfa, vocabulary)(s, t)
            ==> seen.contains(t)
}

/// What is known of the final states and the transitions of the visited states `done`, before
/// the end-of-sequence transitions are added.
spec fn collected(
    dfa: DenseDfa,
    vocabulary: VocabularyView,
    done: Set<StateId>,
    finals: Set<StateId>,
    transitions: Map<StateId, Map<TokenId, StateId>>,
) -> bool {
    &&& forall|s: StateId| #[trigger]
        finals.contains(s) <==> done.contains(s) && dfa.accepts(s)
    &&& forall|s: StateId| #[trigger]
        transitions.contains_key(s) ==> {
            &&& done.contains(s)
            &&& is_row(dfa, vocabulary, s, transitions[s])
            &&& exists|id: TokenId| transitions[s].contains_key(id)
        }
    &&& forall|s: StateId| #[trigger]
        done.contains(s) && !transitions.contains_key(s) ==> is_row(
            dfa,
            vocabulary,
            s,
            Map::empty(),
        )
}

/// Visits `current`: returns its transitions, and adds the states that tokens lead to from there
/// to `seen` and, where they are new, to `pending`.
fn visit(
    dfa: &DFA<Vec<u32>>,
    vocabulary: &Vocabulary,
    entries: &Vec<(&Token, &Vec<TokenId>)>,
    current: StateId,
    seen: &mut FxHashSet<StateId>,
    pending: &mut Vec<StateId>,
) -> (row: FxHashMap<TokenId, StateId>)
    requires
        contents(*dfa).wf(),
        contents(*dfa).is_state(current),
        lists(entries@, vocabulary@.tokens),
        old(pending)@.no_duplicates(),
        forall|s: StateId| #[trigger] old(pending)@.contains(s) ==> old(seen)@.contains(s),
    ensures
        is_row(contents(*dfa), vocabulary@, current, row@),
        forall|t: StateId| #[trigger]
            final(seen)@.contains(t) <==> old(seen)@.contains(t) || token_graph(
                contents(*dfa),
                vocabulary@,
            )(current, t),
        final(pending)@.no_duplicates(),
        forall|t: StateId| #[trigger]
            final(pending)@.contains(t) <==> old(pending)@.contains(t) || (final(seen)@.contains(t)
                && !old(seen)@.contains(t)),
        final(seen)@.len() - old(seen)@.len() == final(pending)@.len() - old(pending)@.len(),
{
    let ghost model = contents(*dfa);
    let ghost words = vocabulary@;
    let ghost hop = token_graph(model, words);
    let eos: TokenId = vocabulary.eos_token_id();
    let mut row: FxHashMap<TokenId, StateId> = FxHashMap::default();
    let mut i: usize = 0;
    while i < entries.len()
        invariant
            i <= entries@.len(),
            model == contents(*dfa),
            words == vocabulary@,
            hop == token_graph(model, words),
            eos == words.eos,
            model.wf(),
            model.is_state(current),
            lists(entries@, words.tokens),
            forall|id: TokenId| #[trigger]
                row@.contains_key(id) ==> offers(model, words, current, id, row@[id]),
            forall|j: int, t: StateId, id: TokenId|
                0 <= j < i && #[trigger] leads(model, words, current, entries@[j].0@, t)
                    && model.keeps(t) && #[trigger] entries@[j].1@.contains(id)
                    ==> row@.contains_key(id),
            forall|j: int, t: StateId|
                0 <= j < i && #[trigger] leads(model, words, current, entries@[j].0@, t)
                    ==> seen@.contains(t),
            forall|t: StateId| #[trigger]
                seen@.contains(t) ==> old(seen)@.contains(t) || hop(current, t),
            forall|t: StateId| #[trigger] old(seen)@.contains(t) ==> seen@.contains(t),
            pending@.no_duplicates(),
            forall|t: StateId| #[trigger]
                pending@.contains(t) <==> old(pending)@.contains(t) || (seen@.contains(t)
                    && !old(seen)@.contains(t)),
            forall|s: StateId| #[trigger] old(pending)@.contains(s) ==> old(seen)@.contains(s),
            seen@.len() - old(seen)@.len() == pending@.len() - old(pending)@.len(),
        decreases entries@.len() - i,
    {
        let (token, ids) = entries[i];
        assert(words.tokens.contains_key(entries@[i as int].0@));
        i = i + 1;
        if contains_id(ids, eos) {
            continue;
        }
        assert(words.usable(token@));
        if let Some(next) = walk(dfa, current, token.as_slice()) {
            assert(leads(model, words, current, token@, next));
            if keeps(dfa, next) {
                let mut k: usize = 0;
                let ghost before = row@;
                while k < ids.len()
                    invariant
                        k <= ids@.len(),
                        words.usable(token@),
                        words.tokens[token@] == ids@,
                        model.walk(current, token@) == Some(next),
                        model.keeps(next),
                        forall|id: TokenId| #[trigger] before.contains_key(id) ==> row@.contains_key(id),
                        forall|id: TokenId| #[trigger]
                            row@.contains_key(id) ==> offers(model, words, current, id, row@[id]),
                        forall|j: int| 0 <= j < k ==> row@.contains_key(#[trigger] ids@[j]),
                    decreases ids@.len() - k,
                {
                    let id: TokenId = ids[k];
                    assert(words.bears(token@, id));
                    map_insert(&mut row, id, next);
                    k = k + 1;
                }
            }
            if !set_contains(seen, &next) {
                let ghost before_seen = seen@;
                let ghost before_pending = pending@;
                set_insert(seen, next);
                pending.push(next);
                proof {
                    lemma_bounded_set(before_seen, u32::MAX);
                    assert(!before_pending.contains(next));
                    assert(pending@[before_pending.len() as int] == next);
                    assert forall|t: StateId| pending@.contains(t) <==> before_pending.contains(t)
                        || t == next by {
                        if before_pending.contains(t) {
                            let k = choose|k: int|
                                0 <= k < before_pending.len() && before_pending[k] == t;
                            assert(pending@[k] == t);
                        }
                    }
                    assert(!old(seen)@.contains(next));
                    assert forall|t: StateId| #[trigger] pending@.contains(t) <==> old(
                        pending,
                    )@.contains(t) || (seen@.contains(t) && !old(seen)@.contains(t)) by {
                        assert(before_pending.contains(t) <==> old(pending)@.contains(t) || (
                        before_seen.contains(t) && !old(seen)@.contains(t)));
                    }
                }
            }
        }
    }
    proof {
        assert forall|t: StateId| hop(current, t) implies #[trigger] seen@.contains(t) by {
            let token = choose|token: Seq<u8>| leads(model, words, current, token, t);
            let j = choose|j: int| 0 <= j < entries@.len() && (#[trigger] entries@[j]).0@ == token;
            assert(leads(model, words, current, entries@[j].0@, t));
        }
        assert forall|id: TokenId, to: StateId| #[trigger]
            offers(model, words, current, id, to) implies row@.contains_key(id) by {
            let token = choose|token: Seq<u8>| #[trigger]
                words.bears(token, id) && model.walk(current, token) == Some(to) && model.keeps(to);
            let j = choose|j: int| 0 <= j < entries@.len() && (#[trigger] entries@[j]).0@ == token;
            assert(leads(model, words, current, entries@[j].0@, to));
            assert(entries@[j].1@.contains(id));
        }
    }
    row
}

/// `transitions` with the end of the sequence allowed in each of the final states, where it stays.
pub open spec fn with_eos(
    transitions: Map<StateId, Map<TokenId, StateId>>,
    finals: Set<StateId>,
    eos: TokenId,
) -> Map<StateId, Map<TokenId, StateId>> {
    Map::new(
        |s: StateId| transitions.contains_key(s) || finals.contains(s),
        |s: StateId|
            if finals.contains(s) {
                (if transitions.contains_key(s) {
                    transitions[s]
                } else {
                    Map::empty()
                }).insert(eos, s)
            } else {
                transitions[s]
            },
    )
}

/// Allows the end of the sequence in each of the final states, where it stays.
pub(crate) fn allow_eos(
    transitions: &mut FxHashMap<StateId, FxHashMap<TokenId, StateId>>,
    finals: &FxHashSet<StateId>,
    eos: TokenId,
)
    ensures
        row_views(final(transitions)@) == with_eos(row_views(old(transitions)@), finals@, eos),
{
    let items = set_items(finals);
    let ghost before = row_views(transitions@);
    let mut i: usize = 0;
    assert(row_views(transitions@) =~= with_eos(before, items@.take(0).to_set(), eos));
    while i < items.len()
        invariant
            i <= items@.len(),
            items@.no_duplicates(),
            row_views(transitions@) == with_eos(before, items@.take(i as int).to_set(), eos),
        decreases items@.len() - i,
    {
        let state: StateId = items[i];
        let ghost done = items@.take(i as int).to_set();
        let ghost current = row_views(transitions@);
        let mut row: FxHashMap<TokenId, StateId> = match map_remove(transitions, &state) {
            Some(row) => row,
            None => FxHashMap::default(),
        };
        let ghost row_before = row@;
        map_insert(&mut row, eos, state);
        map_insert(transitions, state, row);
        i = i + 1;
        proof {
            let next = items@.take(i as int).to_set();
            assert forall|s: StateId| next.contains(s) <==> done.contains(s) || s == state by {
                assert(items@.take(i as int)[i - 1] == state);
                if done.contains(s) {
                    let k = choose|k: int|
                        0 <= k < i - 1 && #[trigger] items@.take((i - 1) as int)[k] == s;
                    assert(items@.take(i as int)[k] == s);
                }
                if next.contains(s) && s != state {
                    let k = choose|k: int| 0 <= k < i && #[trigger] items@.take(i as int)[k] == s;
                    assert(items@.take((i - 1) as int)[k] == s);
                }
            }
            assert(!done.contains(state)) by {
                if done.contains(state) {
                    let k = choose|k: int|
                        0 <= k < i - 1 && #[trigger] items@.take((i - 1) as int)[k] == state;
                    assert(items@[k] == items@[i - 1]);
                }
            }
            assert(current.contains_key(state) <==> before.contains_key(state));
            if before.contains_key(state) {
                assert(row_before == current[state]);
                assert(current[state] == before[state]);
            } else {
                assert(row_before == Map::<TokenId, StateId>::empty());
            }
            assert(row_views(transitions@) =~= current.insert(state, row@));
            assert(row_views(transitions@) =~= with_eos(before, next, eos));
        }
    }
    assert(items@.take(i as int) =~= items@);
}

impl Index {
    /// Builds an `Index` from an automaton and vocabulary tokens.
    pub fn from_dfa(dfa: &DFA<Vec<u32>>, vocabulary: &Vocabulary) -> (index: Result<Self, Error>)
        requires
            contents(*dfa).wf(),
        ensures
            match contents(*dfa).start {
                Some(start) => index matches Ok(built) && is_index(
                    contents(*dfa),
                    vocabulary@,
                    start,
                    built@,
                ),
                None => index matches Err(error) && error is DfaHasNoStartState,
            },
            index is Ok <==> contents(*dfa).start is Some,
    {
        let ghost model = contents(*dfa);
        let ghost words = vocabulary@;
        let ghost hop = token_graph(model, words);
        let start: StateId = match universal_start_state(dfa) {
            Some(start) => start,
            None => return Err(Error::DfaHasNoStartState),
        };
        let eos_token_id: TokenId = vocabulary.eos_token_id();
        let entries = tokens_entries(vocabulary.tokens());
        let mut transitions: FxHashMap<StateId, FxHashMap<TokenId, StateId>> = FxHashMap::default();
        let mut final_states: FxHashSet<StateId> = FxHashSet::default();
        let mut seen: FxHashSet<StateId> = FxHashSet::default();
        set_insert(&mut seen, start);
        let mut next_states: Vec<StateId> = vec![start];
        proof {
            lemma_reaches_itself(hop, start);
            assert(next_states@[0] == start);
            assert(forall|s: StateId| next_states@.contains(s) ==> s == start);
        }
        loop
            invariant
                model == contents(*dfa),
                words == vocabulary@,
                hop == token_graph(model, words),
                model.wf(),
                eos_token_id == words.eos,
                lists(entries@, words.tokens),
                explored(model, words, start, seen@, next_states@),
                collected(
                    model,
                    words,
                    seen@.difference(next_states@.to_set()),
                    final_states@,
                    row_views(transitions@),
                ),
            ensures
                next_states@.len() == 0,
            decreases MAX_STATE + 1 - seen@.len(), next_states@.len(),
        {
            let ghost seen_before = seen@;
            let ghost pending_before = next_states@;
            let ghost done = seen@.difference(next_states@.to_set());
            proof {
                lemma_bounded_set(seen@, MAX_STATE);
            }
            let current: StateId = match next_states.pop() {
                Some(current) => current,
                None => break,
            };
            let ghost pending_popped = next_states@;
            proof {
                assert(pending_before.contains(current)) by {
                    assert(pending_before.last() == current);
                }
                lemma_popped(pending_before);
            }
            if accepts(dfa, current) {
                set_insert(&mut final_states, current);
            }
            let row = visit(dfa, vocabulary, &entries, current, &mut seen, &mut next_states);
            let ghost transitions_before = row_views(transitions@);
            proof {
                lemma_explored_further(
                    model,
                    words,
                    start,
                    current,
                    (seen_before, seen@),
                    (pending_before, next_states@),
                );
                lemma_bounded_set(seen@, MAX_STATE);
                assert(seen_before.subset_of(seen@));
                vstd::set_lib::lemma_len_subset(seen_before, seen@);
            }
            if row.is_empty() {
                assert(row@ =~= Map::<TokenId, StateId>::empty());
            } else {
                proof {
                    let id = choose|id: TokenId| row@.dom().contains(id);
                    assert(row@.contains_key(id));
                }
                map_insert(&mut transitions, current, row);
                assert(row_views(transitions@) =~= transitions_before.insert(current, row@));
            }
            proof {
                let done_after = seen@.difference(next_states@.to_set());
                assert forall|s: StateId| #[trigger]
                    done_after.contains(s) <==> done.contains(s) || s == current by {
                    assert(next_states@.contains(s) <==> pending_popped.contains(s) || (
                    seen@.contains(s) && !seen_before.contains(s)));
                }
            }
        }
        let ghost collected_transitions = row_views(transitions@);
        allow_eos(&mut transitions, &final_states, eos_token_id);
        proof {
            assert(seen@.difference(next_states@.to_set()) =~= seen@);
            lemma_all_explored(
                model,
                words,
                start,
                seen@,
                final_states@,
                collected_transitions,
                row_views(transitions@),
            );
        }
        Ok(Index { initial_state: start, final_states, transitions, eos_token_id })
    }

    /// Builds an `Index` from what became of a regular expression: the automaton, or the error
    /// that is then reported.
    pub fn from_compiled(
        built: Result<DFA<Vec<u32>>, BuildError>,
        vocabulary: &Vocabulary,
    ) -> (index: Result<Self, Error>)
        requires
            built matches Ok(dfa) ==> contents(dfa).wf(),
        ensures
            is_outcome(
                (match built {
                    Ok(dfa) => Ok(contents(dfa)),
                    Err(reason) => Err(reason),
                }),
                vocabulary@,
                index,
            ),
            index is Ok <==> (built matches Ok(dfa) && contents(dfa).start is Some),
            built matches Ok(dfa) ==> contents(dfa).start is None ==> (index matches Err(error)
                && error == Error::DfaHasNoStartState),
            built matches Err(reason) ==> (index matches Err(error) && error
                == Error::IndexDfaError(Box::new(reason))),
    {
        match built {
            Ok(dfa) => Self::from_dfa(&dfa, vocabulary),
            Err(reason) => Err(Error::IndexDfaError(Box::new(reason))),
        }
    }

    /// Builds an `Index` from regular expression and vocabulary tokens.
    pub fn new(regex: &str, vocabulary: &Vocabulary) -> (index: Result<Self, Error>)
        ensures
            is_outcome(compiled(regex@), vocabulary@, index),
            index is Ok <==> (compiled(regex@) matches Ok(dfa) && dfa.start is Some),
            compiled(regex@) matches Ok(dfa) ==> dfa.start is None ==> (index matches Err(error)
                && error == Error::DfaHasNoStartState),
            compiled(regex@) matches Err(reason) ==> (index matches Err(error) && error
                == Error::IndexDfaError(Box::new(reason))),
    {
        Self::from_compiled(compile(regex), vocabulary)
    }

    /// Puts an index together from its parts.
    pub fn from_parts(
        initial_state: StateId,
        final_states: FxHashSet<StateId>,
        transitions: FxHashMap<StateId, FxHashMap<TokenId, StateId>>,
        eos_token_id: TokenId,
    ) -> (index: Self)
        ensures
            index@ == (IndexView {
                initial_state,
                final_states: final_states@,
                transitions: row_views(transitions@),
                eos_token_id,
            }),
            index@.transitions.dom() == transitions@.dom(),
            forall|state: StateId| #[trigger]
                transitions@.contains_key(state) ==> index@.transitions[state]
                    == transitions@[state]@,
    {
        assert(row_views(transitions@).dom() =~= transitions@.dom());
        Index { initial_state, final_states, transitions, eos_token_id }
    }

    /// Returns the ID of the initial state in the automaton.
    pub fn initial_state(&self) -> (state: StateId)
        ensures
            state == self@.initial_state,
    {
        self.initial_state
    }

    /// Returns set of final states.
    pub fn final_states(&self) -> (states: &FxHashSet<StateId>)
        ensures
            states@ == self@.final_states,
    {
        &self.final_states
    }

    /// Returns state transitions map of tokens ids and their corresponding transition states.
    pub fn transitions(&self) -> (transitions: &FxHashMap<StateId, FxHashMap<TokenId, StateId>>)
        ensures
            row_views(transitions@) == self@.transitions,
            self@.transitions.dom() == transitions@.dom(),
            forall|state: StateId| #[trigger]
                transitions@.contains_key(state) ==> self@.transitions[state]
                    == transitions@[state]@,
    {
        assert(row_views(self.transitions@).dom() =~= self.transitions@.dom());
        &self.transitions
    }

    /// Returns the ID of the token that ends a sequence.
    pub fn eos_token_id(&self) -> (id: TokenId)
        ensures
            id == self@.eos_token_id,
    {
        self.eos_token_id
    }

    /// Checks if state is in final states set or not.
    pub fn is_final_state(&self, state: &StateId) -> (found: bool)
        ensures
            found == self@.final_states.contains(*state),
    {
        set_contains(&self.final_states, state)
    }

    /// Lists allowed tokens for a give state ID or `None` if it is not found in `Index`.
    ///
    /// Each token is listed once; the order is left open.
    pub fn allowed_tokens(&self, state: &StateId) -> (tokens: Option<Vec<TokenId>>)
        ensures
            match tokens {
                Some(ids) => {
                    &&& self@.transitions.contains_key(*state)
                    &&& ids@.no_duplicates()
                    &&& ids@.to_set() == self@.transitions[*state].dom()
                },
                None => !self@.transitions.contains_key(*state),
            },
    {
        match map_get(&self.transitions, state) {
            Some(row) => Some(map_keys(row)),
            None => None,
        }
    }

    /// Returns transition state for a given state and token id or `None` otherwise.
    pub fn next_state(&self, state: &StateId, token_id: &TokenId) -> (next: Option<StateId>)
        ensures
            next == self@.next(*state, *token_id),
            match next {
                Some(to) => {
                    &&& *token_id != self@.eos_token_id
                    &&& self@.transitions.contains_key(*state)
                    &&& self@.transitions[*state].contains_key(*token_id)
                    &&& self@.transitions[*state][*token_id] == to
                },
                None => {
                    ||| *token_id == self@.eos_token_id
                    ||| !self@.transitions.contains_key(*state)
                    ||| !self@.transitions[*state].contains_key(*token_id)
                },
            },
    {
        if *token_id == self.eos_token_id {
            return None;
        }
        match map_get(&self.transitions, state) {
            Some(row) => match map_get(row, token_id) {
                Some(next) => Some(*next),
                None => None,
            },
            None => None,
        }
    }
}

/// An exploration stays sound when it visits its next state.
proof fn lemma_explored_further(
    dfa: DenseDfa,
    vocabulary: VocabularyView,
    start: StateId,
    current: StateId,
    seen: (Set<StateId>, Set<StateId>),
    pending: (Seq<StateId>, Seq<StateId>),
)
    requires
        dfa.wf(),
        explored(dfa, vocabulary, start, seen.0, pending.0),
        pending.0.len() > 0,
        pending.0.last() == current,
        forall|t: StateId| #[trigger]
            seen.1.contains(t) <==> seen.0.contains(t) || token_graph(dfa, vocabulary)(current, t),
        pending.1.no_duplicates(),
        forall|t: StateId| #[trigger]
            pending.1.contains(t) <==> pending.0.drop_last().contains(t) || (seen.1.contains(t)
                && !seen.0.contains(t)),
    ensures
        explored(dfa, vocabulary, start, seen.1, pending.1),
{
    let hop = token_graph(dfa, vocabulary);
    lemma_popped(pending.0);
    assert(pending.0.contains(current));
    assert forall|s: StateId| #[trigger] seen.1.contains(s) implies dfa.is_state(s) && reaches(
        hop,
        start,
        s,
    ) by {
        if !seen.0.contains(s) {
            assert(seen.0.contains(current));
            let token = choose|token: Seq<u8>| leads(dfa, vocabulary, current, token, s);
            dfa.lemma_walk_is_state(current, token);
            lemma_reaches_further(hop, start, current, s);
        }
    }
}

/// When nothing is left to visit, the states that were seen are those that are reached, and what
/// was collected of them makes up an index.
proof fn lemma_all_explored(
    dfa: DenseDfa,
    vocabulary: VocabularyView,
    start: StateId,
    seen: Set<StateId>,
    finals: Set<StateId>,
    rows: Map<StateId, Map<TokenId, StateId>>,
    transitions: Map<StateId, Map<TokenId, StateId>>,
)
    requires
        explored(dfa, vocabulary, start, seen, Seq::empty()),
        collected(dfa, vocabulary, seen, finals, rows),
        transitions == with_eos(rows, finals, vocabulary.eos),
    ensures
        is_index(
            dfa,
            vocabulary,
            start,
            (IndexView {
                initial_state: start,
                final_states: finals,
                transitions,
                eos_token_id: vocabulary.eos,
            }),
        ),
{
    let hop = token_graph(dfa, vocabulary);
    let eos = vocabulary.eos;
    let index = IndexView {
        initial_state: start,
        final_states: finals,
        transitions,
        eos_token_id: eos,
    };
    assert forall|s: StateId| seen.contains(s) <==> reaches(hop, start, s) by {
        if reaches(hop, start, s) {
            lemma_reached_within(hop, seen, start, s);
        }
    }
    assert forall|s: StateId, to: StateId| !offers(dfa, vocabulary, s, eos, to) by {}
    assert forall|s: StateId, id: TokenId| #[trigger] index.allows(s, id) implies seen.contains(s)
        && if id == eos {
        dfa.accepts(s) && index.transitions[s][id] == s
    } else {
        offers(dfa, vocabulary, s, id, index.transitions[s][id])
    } by {
        if id == eos && !finals.contains(s) {
            assert(offers(dfa, vocabulary, s, eos, rows[s][id]));
        }
    }
    assert forall|s: StateId, id: TokenId|
        seen.contains(s) && if id == eos {
            dfa.accepts(s)
        } else {
            exists|to: StateId| offers(dfa, vocabulary, s, id, to)
        } implies #[trigger] index.allows(s, id) by {
        if id != eos {
            let to = choose|to: StateId| offers(dfa, vocabulary, s, id, to);
            if !rows.contains_key(s) {
                assert(is_row(dfa, vocabulary, s, Map::empty()));
            }
        }
    }
    assert forall|s: StateId| #[trigger] transitions.contains_key(s) implies exists|id: TokenId|
        index.allows(s, id) by {
        if finals.contains(s) {
            assert(index.allows(s, eos));
        } else {
            let id = choose|id: TokenId| rows[s].contains_key(id);
            assert(index.allows(s, id));
        }
    }
}

} // verus!
