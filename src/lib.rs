//! Transition counts over fixed-size windows of symbol sequences: the
//! statistical core of a simple Markov text model.
use vstd::prelude::*;

pub mod window;
pub mod bigram;
pub mod table;
pub mod aggregate;

verus! {

/// Errors reported by the windowing and counting steps.
#[derive(Debug, Clone, Copy, PartialEq, Eq, Structural)]
pub enum MarkovError {
    /// A window size of zero was requested.
    InvalidWindowSize,
    /// A window holding no symbol reached the aggregator.
    InvalidWindow,
}

} // verus!
