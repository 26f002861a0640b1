//! The error of sampling and generation.

use vstd::prelude::*;

verus! {

/// What can go wrong when a character is drawn.
#[derive(Debug, Clone, Copy, PartialEq, Eq, Structural)]
pub enum MarkovError {
    /// A character was to be drawn from a distribution without entries.
    EmptyDistribution,
}

} // verus!
