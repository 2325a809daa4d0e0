//! The two capability contracts of the kind-agnostic ordering runtime:
//! "is an ordering over groups" and "is orderable under an ordering".

use vstd::prelude::*;

verus! {

/// The comparison that ranking dictates: the outcome of comparing two
/// groups is exactly the outcome of comparing their ranks.
pub open spec fn rank_ordering(a: int, b: int) -> core::cmp::Ordering {
    if a < b {
        core::cmp::Ordering::Less
    } else if a == b {
        core::cmp::Ordering::Equal
    } else {
        core::cmp::Ordering::Greater
    }
}

/// LAW: comparing by ranks is a strict total order.  `rank_ordering` is
/// reflexive only in `Equal`, antisymmetric, transitive, and defined for
/// every pair — so any comparator meeting `GroupedOrdering`'s contract
/// orders its whole domain totally.
pub proof fn lemma_rank_ordering_strict_total_order(a: int, b: int, c: int)
    ensures
        rank_ordering(a, a) == core::cmp::Ordering::Equal,
        rank_ordering(a, b) == core::cmp::Ordering::Equal ==> a == b,
        (rank_ordering(a, b) == core::cmp::Ordering::Less <==> rank_ordering(b, a)
            == core::cmp::Ordering::Greater),
        (rank_ordering(a, b) == core::cmp::Ordering::Less && rank_ordering(b, c)
            == core::cmp::Ordering::Less) ==> rank_ordering(a, c) == core::cmp::Ordering::Less,
{
}

/// Capability: "is an ordering".  An implementor ranks every group of its
/// domain, and its comparator answers by those ranks — which makes the
/// comparison a strict total order over the domain (irreflexive,
/// antisymmetric, transitive, defined for every pair) by construction.
pub trait GroupedOrdering {
    type Group;

    /// Whether `g` belongs to this ordering's group domain.  The default is
    /// unconstrained; a verified implementor overrides it.
    open spec fn in_domain(&self, g: Self::Group) -> bool {
        vstd::pervasive::arbitrary()
    }

    /// The rank this ordering assigns to `g`.  The default is
    /// unconstrained; a verified implementor overrides it.
    open spec fn rank_of(&self, g: Self::Group) -> int {
        vstd::pervasive::arbitrary()
    }

    /// Compare two groups of the domain.  Groups outside the domain are a
    /// caller error, excluded by precondition.
    fn compare(&self, a: &Self::Group, b: &Self::Group) -> (r: core::cmp::Ordering)
        requires
            self.in_domain(*a),
            self.in_domain(*b),
        ensures
            r == rank_ordering(self.rank_of(*a), self.rank_of(*b)),
    ;
}

/// Capability: "is orderable under `TGroupedOrdering`".  An implementor
/// maps each of its values to exactly one group; the mapping is total and
/// pure — one fixed group per item value, the same on every call — and is
/// shared by all ordering instances of the kind, however they permute it.
pub trait GroupedOrderable<TGroupedOrdering: GroupedOrdering> {
    /// The group this item belongs to.  The default is unconstrained; a
    /// verified implementor overrides it.
    open spec fn group_spec(&self) -> TGroupedOrdering::Group {
        vstd::pervasive::arbitrary()
    }

    /// Map this item to its group.
    fn map_to_grouped_ordering(&self) -> (g: TGroupedOrdering::Group)
        ensures
            g == self.group_spec(),
    ;
}

} // verus!
