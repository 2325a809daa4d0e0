//! Group labels: opaque tags drawn from a kind's closed label set.

use vstd::prelude::*;

verus! {

/// One group label of some kind, as a small-integer tag: the label declared
/// at position `id` of the kind's label list.  A `Group` is only meaningful
/// together with the kind it was drawn from; whether a tag belongs to a kind
/// is decided by the kind's validated constructors, which reject any tag
/// outside the declared set.
#[derive(Copy, Clone, Debug, PartialEq, Eq, Hash, Structural)]
pub struct Group {
    /// Position of this label in its kind's declaration order.
    pub id: usize,
}

} // verus!
