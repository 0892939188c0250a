//! Identifiers and errors shared by the whole library.

use regex_automata::dfa::dense::BuildError;
use vstd::prelude::*;

verus! {

/// Identifies a token of a vocabulary.
pub type TokenId = u32;

/// Identifies a state of an index.
pub type StateId = u32;

/// The bytes that a token stands for.
pub type Token = Vec<u8>;

/// The reason that `regex_automata` gives for not building an automaton. It is carried through
/// and never looked into.
#[verifier::external_type_specification]
#[verifier::external_body]
pub struct ExBuildError(BuildError);

/// Everything that can go wrong while a vocabulary is filled or an index is built.
#[derive(Debug)]
pub enum Error {
    /// The end-of-sequence token cannot be inserted into a vocabulary as an ordinary token.
    EOSTokenDisallowed,
    /// The regular expression has no automaton.
    IndexDfaError(Box<BuildError>),
    /// The automaton has no anchored start state that is independent of what precedes the text.
    DfaHasNoStartState,
}

} // verus!
