//! The ways a candidate permutation can be rejected.

use vstd::prelude::*;

verus! {

/// Why a candidate permutation was rejected.  Validation is single-shot:
/// a construction attempt either yields a fully valid ordering instance or
/// exactly one of these errors, and nothing is ever silently corrected.
#[derive(Copy, Clone, Debug, PartialEq, Eq, Structural)]
pub enum OrderingError {
    /// A group appears more than once in the candidate permutation.
    DuplicateLabel,
    /// The candidate permutation's length differs from the kind's label-set
    /// size (or a kind was declared with no labels at all).
    WrongCardinality,
    /// A name (or group tag) does not belong to the kind's label set.
    UnknownLabel,
}

} // verus!
