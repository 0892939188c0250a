//! The dense automata of `regex_automata`.
//!
//! A dense automaton is a table: the row of a state lists the next state for every class of bytes
//! and, after those, the next state for the end of the input. A state is identified by where its
//! row starts. [`DenseDfa`] is that table as a mathematical value; the functions of this module
//! that are taken on trust are lookups in it.

use crate::primitives::StateId;
use regex_automata::dfa::dense::BuildError;
use regex_automata::dfa::dense::DFA;
use regex_automata::dfa::Automaton;
use regex_automata::util::alphabet::ByteClasses;
use regex_automata::util::primitives::StateID;
use regex_automata::Anchored;
use vstd::prelude::*;

verus! {

/// The largest identifier that `regex_automata` gives to a state.
pub const MAX_STATE: u32 = 0x7fff_fffe;

/// What a dense automaton holds.
#[verifier::ext_equal]
pub struct DenseDfa {
    /// The rows of all states, one behind the other.
    pub table: Seq<u32>,
    /// The class of each of the 256 bytes.
    pub classes: Seq<u8>,
    /// The anchored start state, if the same one serves whatever precedes the text.
    pub start: Option<u32>,
    /// The state in which a search gives up.
    pub quit: u32,
    /// The first match state.
    pub min_match: u32,
    /// The last match state.
    pub max_match: u32,
}

impl DenseDfa {
    /// The class of a byte.
    pub open spec fn class(self, byte: u8) -> u8 {
        self.classes[byte as int]
    }

    /// The column of the end of the input: it follows the class of the last byte.
    pub open spec fn eoi_class(self) -> int {
        self.classes[255] + 1
    }

    /// Whether `state` has a complete row.
    pub open spec fn is_state(self, state: u32) -> bool {
        &&& state <= MAX_STATE
        &&& state + self.eoi_class() < self.table.len()
    }

    /// Every byte has a column before that of the end of the input, the first byte is in the
    /// first class, and whatever the table or the start leads to is a state.
    pub open spec fn wf(self) -> bool {
        &&& self.classes.len() == 256
        &&& self.class(0) == 0
        &&& forall|byte: u8| #[trigger] self.class(byte) < self.eoi_class()
        &&& forall|i: int| 0 <= i < self.table.len() ==> self.is_state(#[trigger] self.table[i])
        &&& self.start matches Some(s) ==> self.is_state(s)
    }

    /// The state after `byte` is read in `state`.
    pub open spec fn next(self, state: u32, byte: u8) -> u32 {
        self.table[state + self.class(byte)]
    }

    /// The state after the input has ended in `state`.
    pub open spec fn next_eoi(self, state: u32) -> u32 {
        self.table[state + self.eoi_class()]
    }

    /// Whether nothing can match any more.
    pub open spec fn is_dead(self, state: u32) -> bool {
        state == 0
    }

    /// Whether the search gives up.
    pub open spec fn is_quit(self, state: u32) -> bool {
        state != 0 && state == self.quit
    }

    /// Whether a match has been found, one byte ago.
    pub open spec fn is_match(self, state: u32) -> bool {
        state != 0 && self.min_match <= state <= self.max_match
    }

    /// Whether no text leads on from `state`.
    pub open spec fn stops(self, state: u32) -> bool {
        self.is_dead(state) || self.is_quit(state)
    }

    /// Whether the text read so far is a match as a whole.
    pub open spec fn accepts(self, state: u32) -> bool {
        self.is_match(self.next_eoi(state))
    }

    /// Whether a token may end in `state`: either nothing has matched yet, or all of it has.
    pub open spec fn keeps(self, state: u32) -> bool {
        !self.is_match(state) || self.accepts(state)
    }

    /// The state after all of `bytes` is read from `state`, unless the automaton stops on the way.
    pub open spec fn walk(self, state: u32, bytes: Seq<u8>) -> Option<u32>
        decreases bytes.len(),
    {
        if bytes.len() == 0 {
            Some(state)
        } else {
            match self.walk(state, bytes.drop_last()) {
                None => None,
                Some(before) => {
                    let after = self.next(before, bytes.last());
                    if self.stops(after) {
                        None
                    } else {
                        Some(after)
                    }
                },
            }
        }
    }
}

/// A dense automaton of `regex_automata`.
#[verifier::external_type_specification]
#[verifier::external_body]
#[verifier::reject_recursive_types(T)]
pub struct ExDfa<T>(DFA<T>);

/// The map from bytes to classes of a dense automaton.
#[verifier::external_type_specification]
#[verifier::external_body]
pub struct ExByteClasses(ByteClasses);

/// What `DFA::new` makes of a pattern: the automaton that it builds, or the error that it reports.
pub uninterp spec fn compiled(pattern: Seq<char>) -> Result<DenseDfa, BuildError>;

/// What a dense automaton holds.
pub uninterp spec fn contents(dfa: DFA<Vec<u32>>) -> DenseDfa;

/// The class of each byte that a byte-to-class map holds.
pub uninterp spec fn class_table(classes: ByteClasses) -> Seq<u8>;

/// `DFA::new`: which automaton is built, or else which error is reported, depends on the pattern
/// alone, and the automaton is well formed.
#[verifier::external_body]
pub(crate) fn compile(pattern: &str) -> (dfa: Result<DFA<Vec<u32>>, BuildError>)
    ensures
        match dfa {
            Ok(d) => compiled(pattern@) == Ok::<DenseDfa, BuildError>(contents(d)) && contents(d).wf(),
            Err(e) => compiled(pattern@) == Err::<DenseDfa, BuildError>(e),
        },
{
    DFA::new(pattern)
}

/// `DFA::universal_start_state` for anchored searches.
#[verifier::external_body]
pub(crate) fn universal_start_state(dfa: &DFA<Vec<u32>>) -> (start: Option<StateId>)
    ensures
        start == contents(*dfa).start,
{
    match dfa.universal_start_state(Anchored::Yes) {
        Some(s) => Some(s.as_u32()),
        None => None,
    }
}

/// `DFA::next_state`: the entry of the row of `state` for the class of `byte`.
#[verifier::external_body]
pub(crate) fn next_state(dfa: &DFA<Vec<u32>>, state: StateId, byte: u8) -> (next: StateId)
    requires
        contents(*dfa).is_state(state),
        contents(*dfa).class(byte) < contents(*dfa).eoi_class(),
    ensures
        next == contents(*dfa).next(state, byte),
{
    dfa.next_state(StateID::new_unchecked(state as usize), byte).as_u32()
}

/// `DFA::next_eoi_state`: the entry of the row of `state` for the end of the input.
#[verifier::external_body]
pub(crate) fn next_eoi_state(dfa: &DFA<Vec<u32>>, state: StateId) -> (next: StateId)
    requires
        contents(*dfa).is_state(state),
    ensures
        next == contents(*dfa).next_eoi(state),
{
    dfa.next_eoi_state(StateID::new_unchecked(state as usize)).as_u32()
}

/// `DFA::is_match_state`: match states are numbered without gaps.
#[verifier::external_body]
pub(crate) fn is_match_state(dfa: &DFA<Vec<u32>>, state: StateId) -> (found: bool)
    ensures
        found == contents(*dfa).is_match(state),
{
    dfa.is_match_state(StateID::new_unchecked(state as usize))
}

/// `DFA::is_dead_state`: the dead state is the first of all.
#[verifier::external_body]
pub(crate) fn is_dead_state(dfa: &DFA<Vec<u32>>, state: StateId) -> (found: bool)
    ensures
        found == contents(*dfa).is_dead(state),
{
    dfa.is_dead_state(StateID::new_unchecked(state as usize))
}

/// `DFA::is_quit_state`: there is at most one quit state.
#[verifier::external_body]
pub(crate) fn is_quit_state(dfa: &DFA<Vec<u32>>, state: StateId) -> (found: bool)
    ensures
        found == contents(*dfa).is_quit(state),
{
    dfa.is_quit_state(StateID::new_unchecked(state as usize))
}

/// `DFA::byte_classes`: the byte-to-class map by which the columns of the table are found.
#[verifier::external_body]
pub(crate) fn byte_classes(dfa: &DFA<Vec<u32>>) -> (classes: &ByteClasses)
    ensures
        class_table(*classes) == contents(*dfa).classes,
{
    dfa.byte_classes()
}

/// `ByteClasses::get`: the class of `byte`.
#[verifier::external_body]
pub(crate) fn class_of(classes: &ByteClasses, byte: u8) -> (class: u8)
    ensures
        class == class_table(*classes)[byte as int],
{
    classes.get(byte)
}

/// Reads `bytes` from `state` on and returns the state that is reached, or `None` if the
/// automaton stops on the way.
pub fn walk(dfa: &DFA<Vec<u32>>, state: StateId, bytes: &[u8]) -> (end: Option<StateId>)
    requires
        contents(*dfa).wf(),
        contents(*dfa).is_state(state),
    ensures
        end == contents(*dfa).walk(state, bytes@),
        end matches Some(s) ==> contents(*dfa).is_state(s),
{
    let ghost model = contents(*dfa);
    let mut current: StateId = state;
    let mut i: usize = 0;
    while i < bytes.len()
        invariant
            i <= bytes@.len(),
            model == contents(*dfa),
            model.wf(),
            model.is_state(current),
            model.walk(state, bytes@.take(i as int)) == Some(current),
        decreases bytes@.len() - i,
    {
        let byte: u8 = bytes[i];
        proof {
            assert(bytes@.take(i + 1).drop_last() =~= bytes@.take(i as int));
            assert(model.class(byte) < model.eoi_class());
        }
        current = next_state(dfa, current, byte);
        i = i + 1;
        if is_dead_state(dfa, current) || is_quit_state(dfa, current) {
            proof {
                model.lemma_walk_prefix_stops(state, bytes@, i as int);
            }
            return None;
        }
    }
    assert(bytes@.take(i as int) =~= bytes@);
    Some(current)
}

/// Whether the text that led to `state` is a match as a whole.
pub fn accepts(dfa: &DFA<Vec<u32>>, state: StateId) -> (found: bool)
    requires
        contents(*dfa).is_state(state),
    ensures
        found == contents(*dfa).accepts(state),
{
    is_match_state(dfa, next_eoi_state(dfa, state))
}

/// Whether a token may end in `state`.
pub fn keeps(dfa: &DFA<Vec<u32>>, state: StateId) -> (found: bool)
    requires
        contents(*dfa).is_state(state),
    ensures
        found == contents(*dfa).keeps(state),
{
    !is_match_state(dfa, state) || accepts(dfa, state)
}

impl DenseDfa {
    /// Once the automaton has stopped, it stays stopped.
    pub proof fn lemma_walk_prefix_stops(self, state: u32, bytes: Seq<u8>, n: int)
        requires
            0 <= n <= bytes.len(),
            self.walk(state, bytes.take(n)) is None,
        ensures
            self.walk(state, bytes) is None,
        decreases bytes.len() - n,
    {
        if n == bytes.len() {
            assert(bytes.take(n) =~= bytes);
        } else {
            assert(bytes.take(n + 1).drop_last() =~= bytes.take(n));
            self.lemma_walk_prefix_stops(state, bytes, n + 1);
        }
    }

    /// A walk leads from states to states.
    pub proof fn lemma_walk_is_state(self, state: u32, bytes: Seq<u8>)
        requires
            self.wf(),
            self.is_state(state),
        ensures
            self.walk(state, bytes) matches Some(s) ==> self.is_state(s),
        decreases bytes.len(),
    {
        if bytes.len() > 0 {
            self.lemma_walk_is_state(state, bytes.drop_last());
            if let Some(before) = self.walk(state, bytes.drop_last()) {
                assert(self.class(bytes.last()) < self.eoi_class());
            }
        }
    }

    /// Reading one text after another is reading the two in one go.
    pub proof fn lemma_walk_concat(self, state: u32, first: Seq<u8>, second: Seq<u8>)
        ensures
            self.walk(state, first + second) == match self.walk(state, first) {
                None => None,
                Some(middle) => self.walk(middle, second),
            },
        decreases second.len(),
    {
        if second.len() == 0 {
            assert(first + second =~= first);
        } else {
            assert((first + second).drop_last() =~= first + second.drop_last());
            self.lemma_walk_concat(state, first, second.drop_last());
        }
    }
}

} // verus!
