//! The ways in which the engine refuses its input.

use vstd::prelude::*;

verus! {

/// Why a change could not be applied. Every one of these reports a broken
/// promise of the caller; none is recovered from.
#[derive(Clone, Copy, Debug, PartialEq, Eq, Structural)]
pub enum EngineError {
    /// A rank would have become negative.
    NegativeRank,
    /// The weight of an edge would have become negative.
    NonPositiveWeight,
    /// A value does not fit in 64 bits.
    Overflow,
    /// A record arrived for a timestamp that was released before.
    TimestampReuse,
}

} // verus!
