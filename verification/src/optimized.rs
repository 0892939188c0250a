//! Building an [`Index`] with pre-classified tokens.
//!
//! The states of such an index are numbered from zero in the order in which they are found. A state
//! in which the text is a match is explored like any other, for a match may be the beginning of a
//! longer one: an address may end in `.co` and in `.co.uk`.

use crate::automaton::{
    accepts, byte_classes, class_table, compile, compiled, contents, is_dead_state, is_quit_state,
    keeps, next_state, universal_start_state, walk, DenseDfa, MAX_STATE,
};
use crate::graph::{
    lemma_bounded_set, lemma_popped, lemma_reached_within, lemma_reaches_further,
    lemma_reaches_itself, reaches,
};
use crate::groups::{
    first_class, get_representative_byte, group_tokens, grouped_tokens, holds, is_group, is_grouping,
    is_member, is_member_list, longest_first, occurs_in, same_group, second_class, Entry,
    TokenGroup,
};
use crate::hashing::{map_get, map_insert, set_insert};
use crate::index::{allow_eos, row_views, with_eos, Index, IndexView};
use crate::primitives::{Error, StateId, TokenId};
use crate::vocabulary::{Vocabulary, VocabularyView};
use regex_automata::dfa::dense::{BuildError, DFA};
use rustc_hash::{FxHashMap, FxHashSet};
use vstd::prelude::*;

verus! {

/// Whether `token` may be read in `state`.
pub open spec fn admits(dfa: DenseDfa, state: StateId, token: Seq<u8>) -> bool {
    dfa.walk(state, token) matches Some(to) && dfa.keeps(to)
}

/// The graph of the states of an automaton whose edges are the tokens that may be read.
pub open spec fn kept_graph(dfa: DenseDfa, vocabulary: VocabularyView) -> spec_fn(
    StateId,
    StateId,
) -> bool {
    |from: StateId, to: StateId|
        exists|token: Seq<u8>| #[trigger]
            grouped_tokens(vocabulary).contains(token) && admits(dfa, from, token) && dfa.walk(
                from,
                token,
            ) == Some(to)
}

/// Whether `token` is one that decides where `id` leads from `state`, as far as the tokens in
/// `pool` are concerned: it is called `id`, it may be read in `state`, and no shorter one of its
/// group is and may.
pub open spec fn decides(
    dfa: DenseDfa,
    vocabulary: VocabularyView,
    pool: Set<Seq<u8>>,
    state: StateId,
    id: TokenId,
    token: Seq<u8>,
) -> bool {
    &&& pool.contains(token)
    &&& vocabulary.bears(token, id)
    &&& admits(dfa, state, token)
    &&& forall|other: Seq<u8>|
        #![trigger vocabulary.bears(other, id)]
        pool.contains(other) && vocabulary.bears(other, id) && admits(dfa, state, other)
            && same_group(dfa, token, other) ==> token.len() <= other.len()
}

/// Whether `row` holds the transitions of `state` by the tokens in `pool`, with the states that
/// they lead to as `numbers` numbers them.
pub open spec fn is_numbered_row(
    dfa: DenseDfa,
    vocabulary: VocabularyView,
    pool: Set<Seq<u8>>,
    numbers: Map<StateId, StateId>,
    state: StateId,
    row: Map<TokenId, StateId>,
) -> bool {
    &&& forall|id: TokenId| #[trigger]
        row.contains_key(id) ==> exists|token: Seq<u8>| #[trigger]
            decides(dfa, vocabulary, pool, state, id, token) && row[id] == numbers[dfa.walk(
                state,
                token,
            ).unwrap()]
    &&& forall|id: TokenId, token: Seq<u8>|
        pool.contains(token) && #[trigger] vocabulary.bears(token, id) && admits(dfa, state, token)
            ==> row.contains_key(id)
}

/// Whether `numbers` numbers its states without gaps, from zero on.
pub open spec fn is_numbering(numbers: Map<StateId, StateId>, count: nat) -> bool {
    &&& forall|s: StateId| #[trigger] numbers.contains_key(s) ==> numbers[s] < count
    &&& forall|s: StateId, t: StateId| #[trigger]
        numbers.contains_key(s) && #[trigger] numbers.contains_key(t) && numbers[s] == numbers[t]
            ==> s == t
    &&& forall|n: StateId| n < count ==> #[trigger] numbers.contains_value(n)
}

/// Whether `index` is an index of `vocabulary` over the states of `dfa` that are reached from
/// `start`, as `numbers` numbers them.
///
/// - The numbered states are those that tokens which may be read reach.
/// - The final states are those in which the text is a match.
/// - A numbered state allows exactly the identifiers of the tokens that may be read there, and the
///   end of the sequence if it is final. No other state has transitions, and none has an empty row.
/// - An allowed identifier leads where the shortest of its tokens in some group leads. The end of
///   the sequence stays in its state.
pub open spec fn is_numbered_index(
    dfa: DenseDfa,
    vocabulary: VocabularyView,
    start: StateId,
    numbers: Map<StateId, StateId>,
    index: IndexView,
) -> bool {
    &&& is_numbering(numbers, numbers.dom().len())
    &&& forall|s: StateId| #[trigger]
        numbers.contains_key(s) <==> reaches(kept_graph(dfa, vocabulary), start, s)
    &&& numbers[start] == 0
    &&& index.initial_state == 0
    &&& index.eos_token_id == vocabulary.eos
    &&& forall|n: StateId| #[trigger]
        index.final_states.contains(n) <==> exists|s: StateId| #[trigger]
            numbers.contains_key(s) && numbers[s] == n && dfa.accepts(s)
    &&& forall|n: StateId| #[trigger]
        index.transitions.contains_key(n) ==> exists|s: StateId| #[trigger]
            numbers.contains_key(s) && numbers[s] == n
    &&& forall|n: StateId| #[trigger]
        index.transitions.contains_key(n) ==> exists|id: TokenId| index.allows(n, id)
    &&& forall|s: StateId| #[trigger]
        numbers.contains_key(s) ==> {
            let row = index.row(numbers[s]);
            &&& row.contains_key(vocabulary.eos) <==> dfa.accepts(s)
            &&& row.contains_key(vocabulary.eos) ==> row[vocabulary.eos] == numbers[s]
            &&& is_numbered_row(
                dfa,
                vocabulary,
                grouped_tokens(vocabulary),
                numbers,
                s,
                row.remove(vocabulary.eos),
            )
        }
}

/// Whether `index` is an index of `vocabulary` over the states of `dfa` that are reached from
/// `start`, with the states numbered. In which order the states were found, and so how they are
/// numbered, is left open.
pub open spec fn is_optimized_index(
    dfa: DenseDfa,
    vocabulary: VocabularyView,
    start: StateId,
    index: IndexView,
) -> bool {
    exists|numbers: Map<StateId, StateId>|
        is_numbered_index(dfa, vocabulary, start, numbers, index)
}

/// Whether `outcome` is what building an optimized `Index` comes to, given what became of the regular
/// expression.
///
/// - Without an automaton the reason is reported, and that very reason.
/// - An automaton without a start state is reported as such.
/// - In any other case there is an index, whatever the vocabulary holds.
pub open spec fn is_optimized_outcome(
    built: Result<DenseDfa, BuildError>,
    vocabulary: VocabularyView,
    outcome: Result<Index, Error>,
) -> bool {
    match built {
        Ok(dfa) => match dfa.start {
            Some(start) => outcome matches Ok(index) && is_optimized_index(dfa, vocabulary, start, index@),
            None => outcome matches Err(error) && error == Error::DfaHasNoStartState,
        },
        Err(reason) => outcome matches Err(error) && error == Error::IndexDfaError(
            Box::new(reason),
        ),
    }
}

/// The states found so far, with their numbers, and those among them that are yet to be visited.
struct Numbering {
    ids: FxHashMap<StateId, StateId>,
    count: StateId,
    pending: Vec<StateId>,
}

impl Numbering {
    spec fn wf(self, dfa: DenseDfa) -> bool {
        &&& self.ids@.dom().len() == self.count
        &&& is_numbering(self.ids@, self.count as nat)
        &&& forall|s: StateId| #[trigger] self.ids@.contains_key(s) ==> dfa.is_state(s)
        &&& self.pending@.no_duplicates()
        &&& forall|s: StateId| #[trigger] self.pending@.contains(s) ==> self.ids@.contains_key(s)
    }

    /// Whether this is what `before` can become as more states are found.
    spec fn grown_from(self, before: Self) -> bool {
        &&& before.ids@.submap_of(self.ids@)
        &&& forall|t: StateId| #[trigger]
            self.pending@.contains(t) <==> before.pending@.contains(t) || (self.ids@.contains_key(t)
                && !before.ids@.contains_key(t))
        &&& self.count - before.count == self.pending@.len() - before.pending@.len()
    }

    /// Returns the number of `state`; if it is new, numbers it and leaves it to be visited.
    fn number(&mut self, state: StateId, dfa: &DFA<Vec<u32>>) -> (id: StateId)
        requires
            old(self).wf(contents(*dfa)),
            contents(*dfa).is_state(state),
        ensures
            final(self).wf(contents(*dfa)),
            final(self).grown_from(*old(self)),
            final(self).ids@.contains_key(state),
            final(self).ids@[state] == id,
            forall|t: StateId| #[trigger]
                final(self).ids@.contains_key(t) <==> old(self).ids@.contains_key(t) || t == state,
    {
        if let Some(id) = map_get(&self.ids, &state) {
            return *id;
        }
        let id: StateId = self.count;
        proof {
            let ids = self.ids@;
            lemma_bounded_set(ids.dom().insert(state), MAX_STATE);
            lemma_bounded_set(ids.dom(), MAX_STATE);
            let after = ids.insert(state, id);
            assert(after.dom() =~= ids.dom().insert(state));
            assert forall|n: StateId| n < id + 1 implies #[trigger] after.contains_value(n) by {
                if n == id {
                    assert(after.dom().contains(state));
                } else {
                    assert(ids.contains_value(n));
                    let s = choose|s: StateId| #[trigger] ids.dom().contains(s) && ids[s] == n;
                    assert(after.dom().contains(s));
                }
            }
        }
        let ghost pending_before = self.pending@;
        map_insert(&mut self.ids, state, id);
        self.pending.push(state);
        self.count = self.count + 1;
        proof {
            assert forall|t: StateId| #[trigger] self.pending@.contains(t) <==> pending_before.contains(
                t,
            ) || t == state by {
                if pending_before.contains(t) {
                    let k = choose|k: int| 0 <= k < pending_before.len() && pending_before[k] == t;
                    assert(self.pending@[k] == t);
                }
                assert(self.pending@.last() == state);
            }
            assert(!pending_before.contains(state));
            assert(self.pending@.no_duplicates());
            assert(is_numbering(self.ids@, self.count as nat));
        }
        id
    }
}

/// What is known of a visit to `state` after the tokens in `pool` have been read: the transitions
/// are in `row`, and besides the states known before, `base`, `numbers` has those, and only
/// those, that were found.
spec fn visited(
    dfa: DenseDfa,
    vocabulary: VocabularyView,
    state: StateId,
    base: Map<StateId, StateId>,
    pool: Set<Seq<u8>>,
    numbers: Map<StateId, StateId>,
    row: Map<TokenId, StateId>,
) -> bool {
    &&& is_numbered_row(dfa, vocabulary, pool, numbers, state, row)
    &&& forall|token: Seq<u8>| #[trigger]
        pool.contains(token) && admits(dfa, state, token) ==> numbers.contains_key(
            dfa.walk(state, token).unwrap(),
        )
    &&& forall|t: StateId| #[trigger]
        numbers.contains_key(t) ==> base.contains_key(t) || kept_graph(dfa, vocabulary)(state, t)
    &&& forall|t: StateId| #[trigger] base.contains_key(t) ==> numbers.contains_key(t)
}

/// Tokens that may not be read add nothing.
proof fn lemma_skipped(
    dfa: DenseDfa,
    vocabulary: VocabularyView,
    state: StateId,
    base: Map<StateId, StateId>,
    pool: Set<Seq<u8>>,
    numbers: Map<StateId, StateId>,
    row: Map<TokenId, StateId>,
    skipped: Set<Seq<u8>>,
)
    requires
        visited(dfa, vocabulary, state, base, pool, numbers, row),
        forall|token: Seq<u8>| #[trigger] skipped.contains(token) ==> !admits(dfa, state, token),
    ensures
        visited(dfa, vocabulary, state, base, pool.union(skipped), numbers, row),
{
    let larger = pool.union(skipped);
    assert forall|id: TokenId| #[trigger] row.contains_key(id) implies exists|token: Seq<u8>|
        #[trigger] decides(dfa, vocabulary, larger, state, id, token) && row[id] == numbers[dfa.walk(
            state,
            token,
        ).unwrap()] by {
        let token = choose|token: Seq<u8>| #[trigger]
            decides(dfa, vocabulary, pool, state, id, token) && row[id] == numbers[dfa.walk(
                state,
                token,
            ).unwrap()];
        assert(decides(dfa, vocabulary, larger, state, id, token));
    }
}

/// Reads one token, of which the first `skip` bytes led from `current` to `from`.
fn visit_token(
    dfa: &DFA<Vec<u32>>,
    vocabulary: &Vocabulary,
    current: StateId,
    from: StateId,
    skip: usize,
    entry: Entry,
    numbering: &mut Numbering,
    row: &mut FxHashMap<TokenId, StateId>,
    Ghost(base): Ghost<Map<StateId, StateId>>,
    Ghost(pool): Ghost<Set<Seq<u8>>>,
)
    requires
        contents(*dfa).wf(),
        contents(*dfa).is_state(from),
        skip <= entry.0@.len(),
        contents(*dfa).walk(current, entry.0@.take(skip as int)) == Some(from),
        grouped_tokens(vocabulary@).contains(entry.0@),
        vocabulary@.tokens[entry.0@] == entry.1@,
        forall|other: Seq<u8>| #[trigger]
            pool.contains(other) && same_group(contents(*dfa), entry.0@, other) ==> entry.0@.len()
                <= other.len(),
        old(numbering).wf(contents(*dfa)),
        visited(
            contents(*dfa),
            vocabulary@,
            current,
            base,
            pool,
            old(numbering).ids@,
            old(row)@,
        ),
    ensures
        final(numbering).wf(contents(*dfa)),
        final(numbering).grown_from(*old(numbering)),
        visited(
            contents(*dfa),
            vocabulary@,
            current,
            base,
            pool.insert(entry.0@),
            final(numbering).ids@,
            final(row)@,
        ),
{
    let ghost model = contents(*dfa);
    let ghost words = vocabulary@;
    let ghost larger = pool.insert(entry.0@);
    let (token, ids) = entry;
    let rest: &[u8] = vstd::slice::slice_subrange(token.as_slice(), skip, token.len());
    proof {
        model.lemma_walk_concat(current, token@.take(skip as int), rest@);
        assert(token@.take(skip as int) + rest@ =~= token@);
    }
    let next: StateId = match walk(dfa, from, rest) {
        Some(next) => next,
        None => {
            proof {
                lemma_skipped(
                    model,
                    words,
                    current,
                    base,
                    pool,
                    numbering.ids@,
                    row@,
                    set![token@],
                );
                assert(pool.union(set![token@]) =~= larger);
            }
            return ;
        },
    };
    if !keeps(dfa, next) {
        proof {
            lemma_skipped(
                model,
                words,
                current,
                base,
                pool,
                numbering.ids@,
                row@,
                set![token@],
            );
            assert(pool.union(set![token@]) =~= larger);
        }
        return ;
    }
    assert(admits(model, current, token@));
    let id: StateId = numbering.number(next, dfa);
    let ghost before = row@;
    let mut k: usize = 0;
    while k < ids.len()
        invariant
            k <= ids@.len(),
            forall|i: TokenId| #[trigger]
                row@.contains_key(i) <==> before.contains_key(i) || ids@.take(k as int).contains(i),
            forall|i: TokenId| #[trigger]
                row@.contains_key(i) ==> row@[i] == if ids@.take(k as int).contains(i) {
                    id
                } else {
                    before[i]
                },
        decreases ids@.len() - k,
    {
        let token_id: TokenId = ids[k];
        let ghost earlier = ids@.take(k as int);
        map_insert(row, token_id, id);
        k = k + 1;
        proof {
            let now = ids@.take(k as int);
            assert(now =~= earlier.push(token_id));
            assert forall|i: TokenId| #[trigger]
                now.contains(i) <==> earlier.contains(i) || i == token_id by {
                if earlier.contains(i) {
                    let j = choose|j: int| 0 <= j < earlier.len() && earlier[j] == i;
                    assert(now[j] == i);
                }
                assert(now.last() == token_id);
            }
        }
    }
    proof {
        assert(ids@.take(k as int) =~= ids@);
        assert forall|i: TokenId| #[trigger] row@.contains_key(i) implies exists|word: Seq<u8>|
            #[trigger] decides(model, words, larger, current, i, word) && row@[i]
                == numbering.ids@[model.walk(current, word).unwrap()] by {
            if ids@.contains(i) {
                assert(decides(model, words, larger, current, i, token@));
            } else {
                let word = choose|word: Seq<u8>| #[trigger]
                    decides(model, words, pool, current, i, word) && before[i] == old(
                        numbering,
                    ).ids@[model.walk(current, word).unwrap()];
                assert(!words.bears(token@, i));
                assert(decides(model, words, larger, current, i, word));
                let to = model.walk(current, word).unwrap();
                assert(pool.contains(word));
                assert(old(numbering).ids@.dom().contains(to));
                assert(numbering.ids@.dom().contains(to));
            }
        }
        assert(kept_graph(model, words)(current, next));
    }
}

/// The tokens in `entries`.
spec fn list_tokens(entries: Seq<Entry>) -> Set<Seq<u8>> {
    Set::new(|token: Seq<u8>| holds(entries, token))
}

/// The tokens in the first `n` of the lists of `group`.
spec fn members_tokens(group: TokenGroup, n: int) -> Set<Seq<u8>> {
    Set::new(
        |token: Seq<u8>|
            exists|m: int| 0 <= m < n && holds((#[trigger] group.members@[m]).1@, token),
    )
}

/// The tokens in the first `n` of `groups`.
spec fn groups_tokens(groups: Seq<TokenGroup>, n: int) -> Set<Seq<u8>> {
    Set::new(
        |token: Seq<u8>| exists|g: int| 0 <= g < n && occurs_in(#[trigger] groups[g], token),
    )
}

/// What becomes of a numbering in two steps, it can become in one.
proof fn lemma_grown(one: Numbering, two: Numbering, three: Numbering)
    requires
        two.grown_from(one),
        three.grown_from(two),
    ensures
        three.grown_from(one),
{
    vstd::map_lib::lemma_submap_of_trans(one.ids@, two.ids@, three.ids@);
    assert forall|t: StateId| #[trigger] three.pending@.contains(t) <==> one.pending@.contains(t)
        || (three.ids@.contains_key(t) && !one.ids@.contains_key(t)) by {
        assert(two.pending@.contains(t) <==> one.pending@.contains(t) || (two.ids@.contains_key(t)
            && !one.ids@.contains_key(t)));
        assert(one.ids@.dom().contains(t) ==> two.ids@.dom().contains(t));
        assert(two.ids@.dom().contains(t) ==> three.ids@.dom().contains(t));
    }
}

/// Reads the tokens of one list, of which the first `skip` bytes all led from `current` to `from`.
fn visit_list(
    dfa: &DFA<Vec<u32>>,
    vocabulary: &Vocabulary,
    current: StateId,
    from: StateId,
    skip: usize,
    entries: &Vec<Entry>,
    numbering: &mut Numbering,
    row: &mut FxHashMap<TokenId, StateId>,
    Ghost(first): Ghost<u32>,
    Ghost(second): Ghost<u32>,
    Ghost(base): Ghost<Map<StateId, StateId>>,
    Ghost(pool): Ghost<Set<Seq<u8>>>,
)
    requires
        contents(*dfa).wf(),
        contents(*dfa).is_state(from),
        longest_first(entries@),
        forall|k: int|
            0 <= k < entries@.len() ==> {
                &&& is_member(contents(*dfa), vocabulary@, first, second, #[trigger] entries@[k])
                &&& skip <= entries@[k].0@.len()
                &&& contents(*dfa).walk(current, entries@[k].0@.take(skip as int)) == Some(from)
            },
        forall|token: Seq<u8>| #[trigger]
            pool.contains(token) ==> first_class(contents(*dfa), token) != first || second_class(
                contents(*dfa),
                token,
            ) != second,
        old(numbering).wf(contents(*dfa)),
        visited(
            contents(*dfa),
            vocabulary@,
            current,
            base,
            pool,
            old(numbering).ids@,
            old(row)@,
        ),
    ensures
        final(numbering).wf(contents(*dfa)),
        final(numbering).grown_from(*old(numbering)),
        visited(
            contents(*dfa),
            vocabulary@,
            current,
            base,
            pool.union(list_tokens(entries@)),
            final(numbering).ids@,
            final(row)@,
        ),
{
    let ghost model = contents(*dfa);
    let ghost words = vocabulary@;
    let mut k: usize = 0;
    proof {
        assert(pool.union(list_tokens(entries@.take(0))) =~= pool);
    }
    while k < entries.len()
        invariant
            k <= entries@.len(),
            model == contents(*dfa),
            words == vocabulary@,
            model.wf(),
            model.is_state(from),
            longest_first(entries@),
            forall|j: int|
                0 <= j < entries@.len() ==> {
                    &&& is_member(model, words, first, second, #[trigger] entries@[j])
                    &&& skip <= entries@[j].0@.len()
                    &&& model.walk(current, entries@[j].0@.take(skip as int)) == Some(from)
                },
            forall|token: Seq<u8>| #[trigger]
                pool.contains(token) ==> first_class(model, token) != first || second_class(
                    model,
                    token,
                ) != second,
            numbering.wf(model),
            numbering.grown_from(*old(numbering)),
            visited(
                model,
                words,
                current,
                base,
                pool.union(list_tokens(entries@.take(k as int))),
                numbering.ids@,
                row@,
            ),
        decreases entries@.len() - k,
    {
        let entry = entries[k];
        let ghost now = pool.union(list_tokens(entries@.take(k as int)));
        let ghost before = *numbering;
        proof {
            assert(is_member(model, words, first, second, entries@[k as int]));
            assert forall|other: Seq<u8>| #[trigger]
                now.contains(other) && same_group(model, entry.0@, other) implies entry.0@.len()
                <= other.len() by {
                let early = entries@.take(k as int);
                assert(holds(early, other));
                let j = choose|j: int| 0 <= j < early.len() && (#[trigger] early[j]).0@ == other;
                assert(entries@[j].0@ == other);
                assert(entries@[k as int].0@.len() <= entries@[j].0@.len());
            }
        }
        visit_token(
            dfa,
            vocabulary,
            current,
            from,
            skip,
            entry,
            numbering,
            row,
            Ghost(base),
            Ghost(now),
        );
        k = k + 1;
        proof {
            lemma_grown(*old(numbering), before, *numbering);
            let early = entries@.take(k - 1);
            let later = entries@.take(k as int);
            assert forall|token: Seq<u8>| holds(later, token) <==> holds(early, token) || token
                == entry.0@ by {
                if holds(early, token) {
                    let j = choose|j: int| 0 <= j < early.len() && (#[trigger] early[j]).0@ == token;
                    assert(later[j].0@ == token);
                }
                if holds(later, token) {
                    let j = choose|j: int| 0 <= j < later.len() && (#[trigger] later[j]).0@ == token;
                    if j < k - 1 {
                        assert(early[j].0@ == token);
                    }
                }
                assert(later[k - 1].0@ == entry.0@);
            }
            assert(now.insert(entry.0@) =~= pool.union(list_tokens(later)));
        }
    }
    assert(entries@.take(k as int) =~= entries@);
}

/// Reading `n + 1` bytes is reading `n` bytes and then one.
proof fn lemma_walk_one_more(dfa: DenseDfa, state: StateId, token: Seq<u8>, n: int)
    requires
        0 <= n < token.len(),
    ensures
        dfa.walk(state, token.take(n + 1)) == match dfa.walk(state, token.take(n)) {
            None => None,
            Some(before) => if dfa.stops(dfa.next(before, token[n])) {
                None
            } else {
                Some(dfa.next(before, token[n]))
            },
        },
{
    assert(token.take(n + 1).drop_last() =~= token.take(n));
}

/// Reads the tokens of one group.
fn visit_group(
    dfa: &DFA<Vec<u32>>,
    vocabulary: &Vocabulary,
    current: StateId,
    group: &TokenGroup,
    numbering: &mut Numbering,
    row: &mut FxHashMap<TokenId, StateId>,
    Ghost(base): Ghost<Map<StateId, StateId>>,
    Ghost(pool): Ghost<Set<Seq<u8>>>,
)
    requires
        contents(*dfa).wf(),
        contents(*dfa).is_state(current),
        is_group(contents(*dfa), vocabulary@, *group),
        forall|token: Seq<u8>| #[trigger]
            pool.contains(token) ==> first_class(contents(*dfa), token) != group.first_class,
        old(numbering).wf(contents(*dfa)),
        visited(
            contents(*dfa),
            vocabulary@,
            current,
            base,
            pool,
            old(numbering).ids@,
            old(row)@,
        ),
    ensures
        final(numbering).wf(contents(*dfa)),
        final(numbering).grown_from(*old(numbering)),
        visited(
            contents(*dfa),
            vocabulary@,
            current,
            base,
            pool.union(members_tokens(*group, group.members@.len() as int)),
            final(numbering).ids@,
            final(row)@,
        ),
{
    let ghost model = contents(*dfa);
    let ghost words = vocabulary@;
    let ghost first = group.first_class;
    let classes = byte_classes(dfa);
    proof {
        let b = choose|b: u8| #[trigger] model.class(b) == first;
        assert(class_table(*classes)[b as int] == first);
    }
    let representative_byte: u8 = get_representative_byte(classes, group.first_class);
    assert(model.class(representative_byte) < model.eoi_class());
    let first_state: StateId = next_state(dfa, current, representative_byte);
    let stopped: bool = is_dead_state(dfa, first_state) || is_quit_state(dfa, first_state);
    proof {
        assert forall|m: int, k: int|
            0 <= m < group.members@.len() && 0 <= k < group.members@[m].1@.len() implies {
            let token = (#[trigger] group.members@[m].1@[k]).0@;
            &&& is_member(model, words, first, group.members@[m].0, group.members@[m].1@[k])
            &&& model.walk(current, token.take(1)) == if stopped {
                None
            } else {
                Some(first_state)
            }
        } by {
            let list = group.members@[m];
            assert(is_member_list(model, words, first, list));
            let token = list.1@[k].0@;
            assert(is_member(model, words, first, list.0, list.1@[k]));
            lemma_walk_one_more(model, current, token, 0);
            assert(token.take(0) =~= Seq::empty());
        }
    }
    if stopped {
        proof {
            let skipped = members_tokens(*group, group.members@.len() as int);
            assert forall|token: Seq<u8>| #[trigger] skipped.contains(token) implies !admits(
                model,
                current,
                token,
            ) by {
                let m = choose|m: int|
                    0 <= m < group.members@.len() && holds((#[trigger] group.members@[m]).1@, token);
                let list = group.members@[m].1@;
                let k = choose|k: int| 0 <= k < list.len() && (#[trigger] list[k]).0@ == token;
                assert(group.members@[m].1@[k].0@ == token);
                model.lemma_walk_prefix_stops(current, token, 1);
            }
            lemma_skipped(model, words, current, base, pool, numbering.ids@, row@, skipped);
        }
        return ;
    }
    let mut m: usize = 0;
    assert(pool.union(members_tokens(*group, 0)) =~= pool);
    while m < group.members.len()
        invariant
            m <= group.members@.len(),
            model == contents(*dfa),
            words == vocabulary@,
            first == group.first_class,
            class_table(*classes) == model.classes,
            model.wf(),
            model.is_state(current),
            model.is_state(first_state),
            is_group(model, words, *group),
            forall|token: Seq<u8>| #[trigger]
                pool.contains(token) ==> first_class(model, token) != first,
            forall|i: int, k: int|
                0 <= i < group.members@.len() && 0 <= k < group.members@[i].1@.len() ==> {
                    let token = (#[trigger] group.members@[i].1@[k]).0@;
                    &&& is_member(model, words, first, group.members@[i].0, group.members@[i].1@[k])
                    &&& model.walk(current, token.take(1)) == Some(first_state)
                },
            numbering.wf(model),
            numbering.grown_from(*old(numbering)),
            visited(
                model,
                words,
                current,
                base,
                pool.union(members_tokens(*group, m as int)),
                numbering.ids@,
                row@,
            ),
        decreases group.members@.len() - m,
    {
        let ghost before = *numbering;
        let ghost now = pool.union(members_tokens(*group, m as int));
        let list = &group.members[m];
        let second: u32 = list.0;
        assert(is_member_list(model, words, first, group.members@[m as int]));
        let mut token_next_state: StateId = first_state;
        let mut second_byte: u8 = 0;
        let mut skipped: bool = false;
        if second != 0 {
            proof {
                let b = choose|b: u8| #[trigger] model.class(b) == second;
                assert(class_table(*classes)[b as int] == second);
            }
            second_byte = get_representative_byte(classes, second);
            assert(model.class(second_byte) < model.eoi_class());
            assert(second_byte != 0) by {
                assert(model.class(second_byte) == second);
                assert(model.class(0) == 0);
            }
            token_next_state = next_state(dfa, token_next_state, second_byte);
            skipped = is_dead_state(dfa, token_next_state) || is_quit_state(dfa, token_next_state);
        }
        let skip: usize = if second_byte != 0 {
            2
        } else {
            1
        };
        proof {
            assert forall|k: int| 0 <= k < list.1@.len() implies {
                let token = (#[trigger] list.1@[k]).0@;
                &&& is_member(model, words, first, second, list.1@[k])
                &&& skip <= token.len()
                &&& model.walk(current, token.take(skip as int)) == if skipped {
                    None
                } else {
                    Some(token_next_state)
                }
            } by {
                assert(group.members@[m as int].1@[k] == list.1@[k]);
                let token = list.1@[k].0@;
                if second != 0 {
                    lemma_walk_one_more(model, current, token, 1);
                }
            }
            assert forall|token: Seq<u8>| #[trigger] now.contains(token) implies first_class(
                model,
                token,
            ) != first || second_class(model, token) != second by {
                if !pool.contains(token) {
                    let i = choose|i: int|
                        0 <= i < m && holds((#[trigger] group.members@[i]).1@, token);
                    let earlier = group.members@[i].1@;
                    let k = choose|k: int|
                        0 <= k < earlier.len() && (#[trigger] earlier[k]).0@ == token;
                    assert(group.members@[i].1@[k].0@ == token);
                    assert(group.members@[i].0 != group.members@[m as int].0);
                }
            }
        }
        if skipped {
            proof {
                assert forall|token: Seq<u8>| #[trigger]
                    list_tokens(list.1@).contains(token) implies !admits(model, current, token) by {
                    let k = choose|k: int|
                        0 <= k < list.1@.len() && (#[trigger] list.1@[k]).0@ == token;
                    model.lemma_walk_prefix_stops(current, token, skip as int);
                }
                lemma_skipped(
                    model,
                    words,
                    current,
                    base,
                    now,
                    numbering.ids@,
                    row@,
                    list_tokens(list.1@),
                );
            }
        } else {
            visit_list(
                dfa,
                vocabulary,
                current,
                token_next_state,
                skip,
                &list.1,
                numbering,
                row,
                Ghost(first),
                Ghost(second),
                Ghost(base),
                Ghost(now),
            );
            proof {
                lemma_grown(*old(numbering), before, *numbering);
            }
        }
        m = m + 1;
        proof {
            assert forall|token: Seq<u8>| #[trigger]
                members_tokens(*group, m as int).contains(token) <==> members_tokens(
                    *group,
                    m - 1,
                ).contains(token) || holds(list.1@, token) by {
                if holds(list.1@, token) {
                    assert(holds(group.members@[m - 1].1@, token));
                }
            }
            assert(now.union(list_tokens(list.1@)) =~= pool.union(members_tokens(*group, m as int)));
        }
    }
}

/// Reads all tokens in `current`.
fn visit_groups(
    dfa: &DFA<Vec<u32>>,
    vocabulary: &Vocabulary,
    current: StateId,
    groups: &Vec<TokenGroup>,
    numbering: &mut Numbering,
) -> (row: FxHashMap<TokenId, StateId>)
    requires
        contents(*dfa).wf(),
        contents(*dfa).is_state(current),
        is_grouping(contents(*dfa), vocabulary@, groups@),
        old(numbering).wf(contents(*dfa)),
    ensures
        final(numbering).wf(contents(*dfa)),
        final(numbering).grown_from(*old(numbering)),
        visited(
            contents(*dfa),
            vocabulary@,
            current,
            old(numbering).ids@,
            grouped_tokens(vocabulary@),
            final(numbering).ids@,
            row@,
        ),
{
    let ghost model = contents(*dfa);
    let ghost words = vocabulary@;
    let ghost base = numbering.ids@;
    let mut row: FxHashMap<TokenId, StateId> = FxHashMap::default();
    let mut g: usize = 0;
    while g < groups.len()
        invariant
            g <= groups@.len(),
            model == contents(*dfa),
            words == vocabulary@,
            model.wf(),
            model.is_state(current),
            is_grouping(model, words, groups@),
            numbering.wf(model),
            numbering.grown_from(*old(numbering)),
            visited(
                model,
                words,
                current,
                base,
                groups_tokens(groups@, g as int),
                numbering.ids@,
                row@,
            ),
        decreases groups@.len() - g,
    {
        let ghost before = *numbering;
        let ghost now = groups_tokens(groups@, g as int);
        let group = &groups[g];
        proof {
            assert forall|token: Seq<u8>| #[trigger] now.contains(token) implies first_class(
                model,
                token,
            ) != group.first_class by {
                let h = choose|h: int| 0 <= h < g && occurs_in(#[trigger] groups@[h], token);
                lemma_occurs(model, words, groups@[h], token);
                assert(groups@[h].first_class != groups@[g as int].first_class);
            }
        }
        visit_group(
            dfa,
            vocabulary,
            current,
            group,
            numbering,
            &mut row,
            Ghost(base),
            Ghost(now),
        );
        g = g + 1;
        proof {
            lemma_grown(*old(numbering), before, *numbering);
            assert forall|token: Seq<u8>| #[trigger]
                groups_tokens(groups@, g as int).contains(token) <==> now.contains(token)
                    || members_tokens(*group, group.members@.len() as int).contains(token) by {
                if groups_tokens(groups@, g as int).contains(token) && !now.contains(token) {
                    let h = choose|h: int| 0 <= h < g && occurs_in(#[trigger] groups@[h], token);
                    assert(h == g - 1);
                }
                if members_tokens(*group, group.members@.len() as int).contains(token) {
                    assert(occurs_in(groups@[g - 1], token));
                }
            }
            assert(now.union(members_tokens(*group, group.members@.len() as int))
                =~= groups_tokens(groups@, g as int));
        }
    }
    proof {
        assert forall|token: Seq<u8>| #[trigger]
            groups_tokens(groups@, g as int).contains(token) <==> grouped_tokens(words).contains(
                token,
            ) by {
            if groups_tokens(groups@, g as int).contains(token) {
                let h = choose|h: int| 0 <= h < g && occurs_in(#[trigger] groups@[h], token);
                lemma_occurs(model, words, groups@[h], token);
            }
        }
        assert(groups_tokens(groups@, g as int) =~= grouped_tokens(words));
    }
    row
}

/// A token occurs only in the group of its first class.
proof fn lemma_occurs(
    dfa: DenseDfa,
    vocabulary: VocabularyView,
    group: TokenGroup,
    token: Seq<u8>,
)
    requires
        is_group(dfa, vocabulary, group),
        occurs_in(group, token),
    ensures
        first_class(dfa, token) == group.first_class,
        grouped_tokens(vocabulary).contains(token),
{
    let m = choose|m: int|
        0 <= m < group.members@.len() && holds((#[trigger] group.members@[m]).1@, token);
    let list = group.members@[m];
    let k = choose|k: int| 0 <= k < list.1@.len() && (#[trigger] list.1@[k]).0@ == token;
    assert(is_member(dfa, vocabulary, group.first_class, list.0, list.1@[k]));
}

/// What is known of an exploration that has yet to visit the states in `pending`: the numbered
/// states are reached, and those that were visited lead to numbered states and have their final
/// states and transitions collected.
#[verifier::opaque]
spec fn traversed(
    dfa: DenseDfa,
    vocabulary: VocabularyView,
    start: StateId,
    numbering: Numbering,
    finals: Set<StateId>,
    rows: Map<StateId, Map<TokenId, StateId>>,
) -> bool {
    let ids = numbering.ids@;
    let pending = numbering.pending@;
    &&& numbering.wf(dfa)
    &&& ids.contains_key(start)
    &&& ids[start] == 0
    &&& forall|s: StateId| #[trigger]
        ids.contains_key(s) ==> reaches(kept_graph(dfa, vocabulary), start, s)
    &&& forall|n: StateId| #[trigger] finals.contains(n) ==> n < numbering.count
    &&& forall|n: StateId| #[trigger] rows.contains_key(n) ==> n < numbering.count
    &&& forall|s: StateId, t: StateId|
        ids.contains_key(s) && !pending.contains(s) && #[trigger] kept_graph(dfa, vocabulary)(
            s,
            t,
        ) ==> ids.contains_key(t)
    &&& forall|s: StateId| #[trigger]
        ids.contains_key(s) ==> gathered(
            dfa,
            vocabulary,
            ids,
            s,
            pending.contains(s),
            finals,
            rows,
        )
}

/// What is known of the final states and transitions of a numbered state.
spec fn gathered(
    dfa: DenseDfa,
    vocabulary: VocabularyView,
    ids: Map<StateId, StateId>,
    state: StateId,
    pending: bool,
    finals: Set<StateId>,
    rows: Map<StateId, Map<TokenId, StateId>>,
) -> bool {
    let n = ids[state];
    let pool = grouped_tokens(vocabulary);
    &&& finals.contains(n) <==> !pending && dfa.accepts(state)
    &&& if pending {
        !rows.contains_key(n)
    } else if rows.contains_key(n) {
        &&& exists|id: TokenId| rows[n].contains_key(id)
        &&& is_numbered_row(dfa, vocabulary, pool, ids, state, rows[n])
    } else {
        is_numbered_row(dfa, vocabulary, pool, ids, state, Map::empty())
    }
}

/// A row stays right when more states are numbered.
proof fn lemma_row_kept(
    dfa: DenseDfa,
    vocabulary: VocabularyView,
    ids: (Map<StateId, StateId>, Map<StateId, StateId>),
    state: StateId,
    row: Map<TokenId, StateId>,
)
    requires
        is_numbered_row(dfa, vocabulary, grouped_tokens(vocabulary), ids.0, state, row),
        ids.0.submap_of(ids.1),
        forall|t: StateId| #[trigger]
            kept_graph(dfa, vocabulary)(state, t) ==> ids.0.contains_key(t),
    ensures
        is_numbered_row(dfa, vocabulary, grouped_tokens(vocabulary), ids.1, state, row),
{
    let pool = grouped_tokens(vocabulary);
    assert forall|id: TokenId| #[trigger] row.contains_key(id) implies exists|token: Seq<u8>|
        #[trigger] decides(dfa, vocabulary, pool, state, id, token) && row[id]
            == ids.1[dfa.walk(state, token).unwrap()] by {
        let token = choose|token: Seq<u8>| #[trigger]
            decides(dfa, vocabulary, pool, state, id, token) && row[id] == ids.0[dfa.walk(
                state,
                token,
            ).unwrap()];
        let to = dfa.walk(state, token).unwrap();
        assert(kept_graph(dfa, vocabulary)(state, to));
        assert(ids.0.dom().contains(to));
        assert(ids.1.dom().contains(to));
        assert(decides(dfa, vocabulary, pool, state, id, token));
    }
}

/// An exploration starts with its start state alone.
proof fn lemma_start_visited(
    dfa: DenseDfa,
    vocabulary: VocabularyView,
    start: StateId,
    numbering: Numbering,
)
    requires
        numbering.wf(dfa),
        forall|s: StateId| #[trigger] numbering.ids@.contains_key(s) <==> s == start,
        forall|s: StateId| #[trigger] numbering.pending@.contains(s) <==> s == start,
    ensures
        traversed(dfa, vocabulary, start, numbering, Set::empty(), Map::empty()),
        numbering.ids@[start] == 0,
{
    reveal(traversed);
    lemma_reaches_itself(kept_graph(dfa, vocabulary), start);
    assert(numbering.ids@.dom() =~= set![start]);
    assert(numbering.ids@.contains_key(start));
}

/// What a visit to the next state may rely on.
proof fn lemma_next_visit(
    dfa: DenseDfa,
    vocabulary: VocabularyView,
    start: StateId,
    numbering: Numbering,
    finals: Set<StateId>,
    rows: Map<StateId, Map<TokenId, StateId>>,
)
    requires
        traversed(dfa, vocabulary, start, numbering, finals, rows),
    ensures
        numbering.wf(dfa),
        numbering.count <= MAX_STATE + 1,
        numbering.pending@.len() > 0 ==> {
            &&& numbering.ids@.contains_key(numbering.pending@.last())
            &&& dfa.is_state(numbering.pending@.last())
            &&& numbering.pending@.drop_last().no_duplicates()
            &&& forall|s: StateId| #[trigger]
                numbering.pending@.drop_last().contains(s) ==> numbering.ids@.contains_key(s)
        },
{
    reveal(traversed);
    lemma_bounded_set(numbering.ids@.dom(), MAX_STATE);
    if numbering.pending@.len() > 0 {
        lemma_popped(numbering.pending@);
        assert(numbering.pending@.contains(numbering.pending@.last()));
    }
}

/// An exploration stays sound when it visits its next state.
proof fn lemma_visited_next(
    dfa: DenseDfa,
    vocabulary: VocabularyView,
    start: StateId,
    before: Numbering,
    popped: Numbering,
    after: Numbering,
    finals: (Set<StateId>, Set<StateId>),
    rows: (Map<StateId, Map<TokenId, StateId>>, Map<StateId, Map<TokenId, StateId>>),
    row: Map<TokenId, StateId>,
)
    requires
        dfa.wf(),
        traversed(dfa, vocabulary, start, before, finals.0, rows.0),
        before.pending@.len() > 0,
        popped.ids@ == before.ids@,
        popped.count == before.count,
        popped.pending@ == before.pending@.drop_last(),
        after.wf(dfa),
        after.grown_from(popped),
        visited(
            dfa,
            vocabulary,
            before.pending@.last(),
            before.ids@,
            grouped_tokens(vocabulary),
            after.ids@,
            row,
        ),
        if row == Map::<TokenId, StateId>::empty() {
            rows.1 == rows.0
        } else {
            rows.1 == rows.0.insert(before.ids@[before.pending@.last()], row)
        },
        if dfa.accepts(before.pending@.last()) {
            finals.1 == finals.0.insert(before.ids@[before.pending@.last()])
        } else {
            finals.1 == finals.0
        },
    ensures
        traversed(dfa, vocabulary, start, after, finals.1, rows.1),
        after.count >= before.count,
{
    reveal(traversed);
    let hop = kept_graph(dfa, vocabulary);
    let current = before.pending@.last();
    let old_ids = before.ids@;
    let ids = after.ids@;
    lemma_popped(before.pending@);
    assert(before.pending@.contains(current));
    assert(old_ids.dom().contains(current) && ids.dom().contains(current));
    assert(old_ids.dom().contains(start) && ids.dom().contains(start));
    lemma_bounded_set(old_ids.dom(), MAX_STATE);
    lemma_bounded_set(ids.dom(), MAX_STATE);
    assert(old_ids.dom().subset_of(ids.dom()));
    vstd::set_lib::lemma_len_subset(old_ids.dom(), ids.dom());
    assert forall|s: StateId| #[trigger] ids.contains_key(s) implies reaches(hop, start, s) by {
        if !old_ids.contains_key(s) {
            assert(old_ids.contains_key(current));
            lemma_reaches_further(hop, start, current, s);
        }
    }
    assert forall|s: StateId, t: StateId|
        ids.contains_key(s) && !after.pending@.contains(s) && #[trigger] hop(
            s,
            t,
        ) implies ids.contains_key(t) by {
        assert(old_ids.contains_key(s));
        if s == current {
            let token = choose|token: Seq<u8>| #[trigger]
                grouped_tokens(vocabulary).contains(token) && admits(dfa, s, token) && dfa.walk(
                    s,
                    token,
                ) == Some(t);
            assert(grouped_tokens(vocabulary).contains(token));
        } else {
            assert(old_ids.contains_key(t));
        }
    }
    assert forall|s: StateId| #[trigger] ids.contains_key(s) implies gathered(
        dfa,
        vocabulary,
        ids,
        s,
        after.pending@.contains(s),
        finals.1,
        rows.1,
    ) by {
        let n = ids[s];
        if old_ids.contains_key(s) {
            assert(old_ids.dom().contains(s));
            assert(gathered(
                dfa,
                vocabulary,
                old_ids,
                s,
                before.pending@.contains(s),
                finals.0,
                rows.0,
            ));
            assert(s != current ==> n != ids[current]) by {
                assert(ids.contains_key(current));
            }
            if s == current {
                if row != Map::<TokenId, StateId>::empty() {
                    assert(exists|id: TokenId| row.contains_key(id)) by {
                        if forall|id: TokenId| !row.contains_key(id) {
                            assert(row =~= Map::empty());
                        }
                    }
                    let id = choose|id: TokenId| row.contains_key(id);
                    assert(rows.1[n].contains_key(id));
                }
            } else if !before.pending@.contains(s) {
                if rows.0.contains_key(n) {
                    lemma_row_kept(dfa, vocabulary, (old_ids, ids), s, rows.0[n]);
                    let id = choose|id: TokenId| rows.0[n].contains_key(id);
                    assert(rows.1[n].contains_key(id));
                } else {
                    lemma_row_kept(dfa, vocabulary, (old_ids, ids), s, Map::empty());
                }
            }
        } else {
            assert(n >= before.count) by {
                if n < before.count {
                    assert(old_ids.contains_value(n));
                    let other = choose|other: StateId| #[trigger]
                        old_ids.dom().contains(other) && old_ids[other] == n;
                    assert(ids.dom().contains(other));
                    assert(ids.contains_key(other));
                }
            }
        }
    }
}

/// When nothing is left to visit, what was gathered makes up an index.
proof fn lemma_all_visited(
    dfa: DenseDfa,
    vocabulary: VocabularyView,
    start: StateId,
    numbering: Numbering,
    finals: Set<StateId>,
    rows: Map<StateId, Map<TokenId, StateId>>,
    transitions: Map<StateId, Map<TokenId, StateId>>,
)
    requires
        traversed(dfa, vocabulary, start, numbering, finals, rows),
        numbering.pending@.len() == 0,
        transitions == with_eos(rows, finals, vocabulary.eos),
    ensures
        is_numbered_index(
            dfa,
            vocabulary,
            start,
            numbering.ids@,
            (IndexView {
                initial_state: 0,
                final_states: finals,
                transitions,
                eos_token_id: vocabulary.eos,
            }),
        ),
{
    reveal(traversed);
    let hop = kept_graph(dfa, vocabulary);
    let ids = numbering.ids@;
    assert forall|s: StateId| #[trigger] ids.contains_key(s) <==> reaches(hop, start, s) by {
        if reaches(hop, start, s) {
            lemma_reached_within(hop, ids.dom(), start, s);
        }
    }
    assert forall|s: StateId| #[trigger] ids.contains_key(s) implies gathered(
        dfa,
        vocabulary,
        ids,
        s,
        false,
        finals,
        rows,
    ) by {
        assert(!numbering.pending@.contains(s));
    }
    assert forall|n: StateId| #[trigger] ids.contains_value(n) implies exists|s: StateId| #[trigger]
        ids.contains_key(s) && ids[s] == n && gathered(
            dfa,
            vocabulary,
            ids,
            s,
            false,
            finals,
            rows,
        ) by {
        let s = choose|s: StateId| #[trigger] ids.dom().contains(s) && ids[s] == n;
        assert(ids.contains_key(s));
    }
    assert forall|n: StateId| #[trigger] finals.contains(n) implies exists|s: StateId| #[trigger]
        ids.contains_key(s) && ids[s] == n && dfa.accepts(s) by {
        assert(ids.contains_value(n));
    }
    assert forall|n: StateId| #[trigger] transitions.contains_key(n) implies exists|s: StateId|
        #[trigger] ids.contains_key(s) && ids[s] == n by {
        assert(n < numbering.count);
        assert(ids.contains_value(n));
    }
    let index = IndexView {
        initial_state: 0,
        final_states: finals,
        transitions,
        eos_token_id: vocabulary.eos,
    };
    assert forall|n: StateId| #[trigger] transitions.contains_key(n) implies exists|id: TokenId|
        index.allows(n, id) by {
        if finals.contains(n) {
            assert(index.allows(n, vocabulary.eos));
        } else {
            assert(ids.contains_value(n));
            let id = choose|id: TokenId| rows[n].contains_key(id);
            assert(index.allows(n, id));
        }
    }
    assert forall|s: StateId| #[trigger] ids.contains_key(s) implies {
        let row = index.row(ids[s]);
        &&& row.contains_key(vocabulary.eos) <==> dfa.accepts(s)
        &&& row.contains_key(vocabulary.eos) ==> row[vocabulary.eos] == ids[s]
        &&& is_numbered_row(
            dfa,
            vocabulary,
            grouped_tokens(vocabulary),
            ids,
            s,
            row.remove(vocabulary.eos),
        )
    } by {
        let n = ids[s];
        let pool = grouped_tokens(vocabulary);
        assert(gathered(dfa, vocabulary, ids, s, false, finals, rows));
        let found = if rows.contains_key(n) {
            rows[n]
        } else {
            Map::empty()
        };
        assert(is_numbered_row(dfa, vocabulary, pool, ids, s, found));
        assert(!found.contains_key(vocabulary.eos)) by {
            if found.contains_key(vocabulary.eos) {
                let token = choose|token: Seq<u8>| #[trigger]
                    decides(dfa, vocabulary, pool, s, vocabulary.eos, token);
                assert(vocabulary.bears(token, vocabulary.eos));
            }
        }
        assert(index.row(n).remove(vocabulary.eos) =~= found);
    }
}

impl Index {
    /// Builds an optimized `Index` from an automaton, using two-level token pre-classification.
    pub fn from_dfa_optimized(dfa: &DFA<Vec<u32>>, vocabulary: &Vocabulary) -> (index: Result<
        Self,
        Error,
    >)
        requires
            contents(*dfa).wf(),
        ensures
            match contents(*dfa).start {
                Some(start) => index matches Ok(built) && is_optimized_index(
                    contents(*dfa),
                    vocabulary@,
                    start,
                    built@,
                ),
                None => index matches Err(error) && error is DfaHasNoStartState,
            },
            index is Ok <==> contents(*dfa).start is Some,
    {
        let ghost model = contents(*dfa);
        let ghost words = vocabulary@;
        let eos_token_id: TokenId = vocabulary.eos_token_id();
        let start: StateId = match universal_start_state(dfa) {
            Some(start) => start,
            None => return Err(Error::DfaHasNoStartState),
        };
        let groups = group_tokens(dfa, vocabulary);
        let mut transitions: FxHashMap<StateId, FxHashMap<TokenId, StateId>> = FxHashMap::default();
        let mut final_states: FxHashSet<StateId> = FxHashSet::default();
        let mut numbering = Numbering { ids: FxHashMap::default(), count: 0, pending: Vec::new() };
        assert(numbering.ids@.dom() =~= Set::<StateId>::empty());
        let initial_state: StateId = numbering.number(start, dfa);
        proof {
            lemma_start_visited(model, words, start, numbering);
            assert(row_views(transitions@) =~= Map::empty());
        }
        loop
            invariant
                model == contents(*dfa),
                words == vocabulary@,
                model.wf(),
                model.start == Some(start),
                initial_state == 0,
                eos_token_id == words.eos,
                is_grouping(model, words, groups@),
                traversed(model, words, start, numbering, final_states@, row_views(transitions@)),
            ensures
                numbering.pending@.len() == 0,
            decreases MAX_STATE + 1 - numbering.count, numbering.pending@.len(),
        {
            let ghost before = numbering;
            let ghost finals = final_states@;
            let ghost rows = row_views(transitions@);
            proof {
                lemma_next_visit(model, words, start, numbering, finals, rows);
            }
            let current: StateId = match numbering.pending.pop() {
                Some(current) => current,
                None => {
                    proof {
                        reveal(traversed);
                    }
                    break
                },
            };
            let ghost popped = numbering;
            let current_id: StateId = match map_get(&numbering.ids, &current) {
                Some(id) => *id,
                None => 0,
            };
            if accepts(dfa, current) {
                set_insert(&mut final_states, current_id);
            }
            let row = visit_groups(dfa, vocabulary, current, &groups, &mut numbering);
            let ghost found = row@;
            if row.is_empty() {
                assert(found =~= Map::<TokenId, StateId>::empty());
            } else {
                map_insert(&mut transitions, current_id, row);
                assert(row_views(transitions@) =~= rows.insert(current_id, found));
            }
            proof {
                lemma_visited_next(
                    model,
                    words,
                    start,
                    before,
                    popped,
                    numbering,
                    (finals, final_states@),
                    (rows, row_views(transitions@)),
                    found,
                );
                lemma_next_visit(
                    model,
                    words,
                    start,
                    numbering,
                    final_states@,
                    row_views(transitions@),
                );
            }
        }
        let ghost rows = row_views(transitions@);
        allow_eos(&mut transitions, &final_states, eos_token_id);
        proof {
            lemma_all_visited(
                model,
                words,
                start,
                numbering,
                final_states@,
                rows,
                row_views(transitions@),
            );
        }
        let ghost numbers = numbering.ids@;
        let index = Index::from_parts(initial_state, final_states, transitions, eos_token_id);
        assert(is_numbered_index(model, words, start, numbers, index@));
        Ok(index)
    }

    /// Builds an optimized `Index` from what became of a regular expression: the automaton, or the error
    /// that is then reported.
    pub fn from_compiled_optimized(
        built: Result<DFA<Vec<u32>>, BuildError>,
        vocabulary: &Vocabulary,
    ) -> (index: Result<Self, Error>)
        requires
            built matches Ok(dfa) ==> contents(dfa).wf(),
        ensures
            is_optimized_outcome(
                (match built {
                    Ok(dfa) => Ok(contents(dfa)),
                    Err(reason) => Err(reason),
                }),
                vocabulary@,
                index,
            ),
            index is Ok <==> (built matches Ok(dfa) && contents(dfa).start is Some),
            built matches Ok(dfa) ==> contents(dfa).start is None ==> (index matches Err(error)
                && error == Error::DfaHasNoStartState),
            built matches Err(reason) ==> (index matches Err(error) && error
                == Error::IndexDfaError(Box::new(reason))),
    {
        match built {
            Ok(dfa) => Self::from_dfa_optimized(&dfa, vocabulary),
            Err(reason) => Err(Error::IndexDfaError(Box::new(reason))),
        }
    }

    /// Builds an optimized `Index` using two-level token pre-classification.
    ///
    /// It generates the same texts as the index that [`Index::new`] builds.
    pub fn new_optimized(regex: &str, vocabulary: &Vocabulary) -> (index: Result<Self, Error>)
        ensures
            is_optimized_outcome(compiled(regex@), vocabulary@, index),
            index is Ok <==> (compiled(regex@) matches Ok(dfa) && dfa.start is Some),
            compiled(regex@) matches Ok(dfa) ==> dfa.start is None ==> (index matches Err(error)
                && error == Error::DfaHasNoStartState),
            compiled(regex@) matches Err(reason) ==> (index matches Err(error) && error
                == Error::IndexDfaError(Box::new(reason))),
    {
        Self::from_compiled_optimized(compile(regex), vocabulary)
    }
}

} // verus!
