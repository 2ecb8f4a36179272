//! An engine that recommends guesses for a five-letter word-guessing game.
//!
//! The engine models feedback as information: it encodes letter feedback as
//! base-3 status codes, precomputes the feedback pattern for every pair of
//! vocabulary words, narrows the set of possible solutions from a guess
//! history, and ranks candidate guesses by expected information gain.

use vstd::prelude::*;

pub mod bits;
pub mod indices;
pub mod letter;
pub mod session;
pub mod solver;
pub mod strategy;
pub mod wordle;

verus! {

/// The conditions under which an engine operation can fail.
#[derive(Clone, Copy, Debug, PartialEq, Eq, Structural)]
pub enum SolverError {
    /// The vocabulary and prior inputs are malformed or mismatched, so no
    /// engine can be built from them.
    DataError,
    /// A word handed to the engine is not part of its vocabulary.
    UnknownWord,
    /// A ranking was requested against an empty candidate set, which means
    /// the guess history is contradictory.
    EmptyCandidateSet,
}

} // verus!
