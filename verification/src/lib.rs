//! An index from vocabulary tokens to the state transitions of a regular expression.

pub mod automaton;
pub mod graph;
pub mod groups;
pub mod hashing;
pub mod index;
pub mod laws;
pub mod optimized;
pub mod primitives;
pub mod readings;
pub mod render;
pub mod vocabulary;
