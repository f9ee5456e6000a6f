//! Failures the engine reports to its callers.

use vstd::prelude::*;

verus! {

/// Why a junction operation was refused.
#[derive(Clone, Copy, Debug, PartialEq, Eq, Structural)]
pub enum JoinError {
    /// The junction behind a channel handle has already been destroyed.
    JunctionUnavailable,
    /// A pattern was finalized with a handler whose parameter count differs
    /// from the number of channels the builder accumulated.
    PatternArityMismatch,
    /// A pattern names a channel identity this junction never minted, as
    /// happens when a builder mixes channels of different junctions.
    CrossJunctionPattern,
}

} // verus!
