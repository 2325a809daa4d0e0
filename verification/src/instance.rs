//! Ordering instances: immutable bijections between a kind's groups and the
//! ranks `0..n`.

use vstd::prelude::*;
use vstd::set_lib::{lemma_len_subset, lemma_int_range, set_int_range};
use crate::errors::OrderingError;
use crate::groups::Group;
use crate::ordering_traits::GroupedOrdering;

verus! {

/// The identity permutation over `n` groups: each group at the rank given by
/// its declaration order.
pub open spec fn identity_permutation(n: nat) -> Seq<Group> {
    Seq::new(n, |i: int| Group { id: i as usize })
}

/// The first reason, scanning `s` left to right from position `i`, why `s` is
/// not a permutation of a kind with `n` groups; `None` when the scan finds
/// none.  A tag outside `0..n` is reported at its first occurrence as
/// `UnknownLabel`; a repetition of an earlier entry as `DuplicateLabel`.
pub open spec fn first_flaw(n: nat, s: Seq<Group>, i: nat) -> Option<OrderingError>
    decreases s.len() - i,
{
    if i >= s.len() {
        None
    } else if s[i as int].id >= n {
        Some(OrderingError::UnknownLabel)
    } else if exists|k: int| 0 <= k < i && s[k] == s[i as int] {
        Some(OrderingError::DuplicateLabel)
    } else {
        first_flaw(n, s, i + 1)
    }
}

/// What constructing an ordering instance of a kind with `n` groups from the
/// candidate permutation `s` yields: `None` on success, otherwise the error.
/// A candidate of the wrong length is rejected as `WrongCardinality` before
/// its entries are looked at.
pub open spec fn construction_outcome(n: nat, s: Seq<Group>) -> Option<OrderingError> {
    if s.len() != n {
        Some(OrderingError::WrongCardinality)
    } else {
        first_flaw(n, s, 0)
    }
}

/// An immutable bijection between the groups of one kind and the ranks
/// `0..n`: `groups` lists the group at each rank and `index_lookup` the rank
/// of each group, indexed by the group's tag.  Built only by the validating
/// constructor, never mutated afterwards.
#[derive(Debug)]
pub struct OrderingInstance {
    groups: Vec<Group>,
    index_lookup: Vec<usize>,
}

impl OrderingInstance {
    /// The bijection invariant: `groups` and `index_lookup` are mutually
    /// inverse over exactly the tags `0..n`.  Holds of every instance.
    #[verifier::type_invariant]
    pub closed spec fn wf(self) -> bool {
        let n = self.groups@.len();
        &&& self.index_lookup@.len() == n
        &&& forall|r: int| 0 <= r < n ==> (#[trigger] self.groups@[r]).id < n
        &&& forall|r: int| 0 <= r < n
            ==> self.index_lookup@[(#[trigger] self.groups@[r]).id as int] == r
        &&& forall|id: int| 0 <= id < n ==> (#[trigger] self.index_lookup@[id]) < n
        &&& forall|id: int| 0 <= id < n
            ==> self.groups@[(#[trigger] self.index_lookup@[id]) as int].id == id
    }

    /// The permutation this instance realises: the group at each rank, in
    /// rank order.
    pub closed spec fn permutation(self) -> Seq<Group> {
        self.groups@
    }

    /// The number of groups of this instance's kind.
    pub open spec fn size_spec(self) -> nat {
        self.permutation().len()
    }

    /// Whether `g` is a group of this instance's kind.
    pub open spec fn has_group(self, g: Group) -> bool {
        g.id < self.size_spec()
    }

    /// The rank this instance assigns to `g`.
    pub closed spec fn rank_spec(self, g: Group) -> int {
        self.index_lookup@[g.id as int] as int
    }

    /// The number of groups of this instance's kind.
    pub fn size(&self) -> (n: usize)
        ensures
            n == self.size_spec(),
    {
        self.groups.len()
    }

    /// The permutation as a vector: the group at each rank, in rank order.
    pub fn groups(&self) -> (v: Vec<Group>)
        ensures
            v@ == self.permutation(),
    {
        let mut v: Vec<Group> = Vec::new();
        let mut r: usize = 0;
        while r < self.groups.len()
            invariant
                r <= self.groups@.len(),
                v@.len() == r,
                forall|k: int| 0 <= k < r ==> v@[k] == self.groups@[k],
            decreases self.groups@.len() - r,
        {
            v.push(self.groups[r]);
            r += 1;
        }
        proof {
            assert(v@ =~= self.permutation());
        }
        v
    }

    /// The rank of group `g`, 0-indexed.  Asking for the rank of a tag
    /// outside the kind's label set is a caller error, excluded here by
    /// precondition.
    pub fn rank(&self, g: Group) -> (r: usize)
        requires
            self.has_group(g),
        ensures
            r == self.rank_spec(g),
            r < self.size_spec(),
    {
        proof {
            use_type_invariant(&*self);
        }
        self.index_lookup[g.id]
    }

    /// The group at rank `r`.  An out-of-range rank is a caller error,
    /// excluded here by precondition.
    pub fn group_at(&self, r: usize) -> (g: Group)
        requires
            r < self.size_spec(),
        ensures
            g == self.permutation()[r as int],
            self.has_group(g),
    {
        proof {
            use_type_invariant(&*self);
        }
        self.groups[r]
    }

    /// The single validating constructor behind every way of making an
    /// instance: succeeds exactly on the permutations of a kind with `n`
    /// groups, and otherwise reports the first flaw found.
    pub(crate) fn try_from_permutation(n: usize, groups: Vec<Group>) -> (res: Result<
        Self,
        OrderingError,
    >)
        ensures
            match res {
                Ok(inst) => {
                    &&& construction_outcome(n as nat, groups@) is None
                    &&& inst.wf()
                    &&& inst.permutation() == groups@
                    &&& inst.size_spec() == n
                },
                Err(e) => construction_outcome(n as nat, groups@) == Some(e),
            },
    {
        if groups.len() != n {
            return Err(OrderingError::WrongCardinality);
        }
        let mut index_lookup: Vec<usize> = Vec::new();
        let mut f: usize = 0;
        while f < n
            invariant
                index_lookup@.len() == f,
                f <= n,
                forall|id: int| 0 <= id < f ==> (#[trigger] index_lookup@[id]) == n,
            decreases n - f,
        {
            index_lookup.push(n);
            f += 1;
        }
        let mut r: usize = 0;
        while r < n
            invariant
                groups@.len() == n,
                index_lookup@.len() == n,
                r <= n,
                forall|k: int| 0 <= k < r ==> (#[trigger] groups@[k]).id < n,
                forall|k: int| 0 <= k < r
                    ==> index_lookup@[(#[trigger] groups@[k]).id as int] == k,
                forall|id: int| 0 <= id < n
                    ==> (#[trigger] index_lookup@[id]) == n || index_lookup@[id] < r,
                forall|id: int| 0 <= id < n && (#[trigger] index_lookup@[id]) < r
                    ==> groups@[index_lookup@[id] as int].id == id,
                forall|id: int| 0 <= id < n && (#[trigger] index_lookup@[id]) == n
                    ==> forall|k: int| 0 <= k < r ==> (#[trigger] groups@[k]).id != id,
                first_flaw(n as nat, groups@, 0) == first_flaw(n as nat, groups@, r as nat),
            decreases n - r,
        {
            let g = groups[r];
            if g.id >= n {
                proof {
                    assert(first_flaw(n as nat, groups@, r as nat)
                        == Some(OrderingError::UnknownLabel));
                }
                return Err(OrderingError::UnknownLabel);
            }
            if index_lookup[g.id] != n {
                proof {
                    let k = index_lookup@[g.id as int] as int;
                    assert(groups@[k] == groups@[r as int]);
                    assert(first_flaw(n as nat, groups@, r as nat)
                        == Some(OrderingError::DuplicateLabel));
                }
                return Err(OrderingError::DuplicateLabel);
            }
            proof {
                assert(forall|k: int| 0 <= k < r ==> (#[trigger] groups@[k]) != groups@[r as int]);
                assert(first_flaw(n as nat, groups@, r as nat)
                    == first_flaw(n as nat, groups@, (r + 1) as nat));
            }
            index_lookup[g.id] = r;
            r += 1;
        }
        proof {
            assert(first_flaw(n as nat, groups@, n as nat) is None);
            lemma_distinct_tags_cover(groups@, n as nat);
            assert forall|id: int| 0 <= id < n implies (#[trigger] index_lookup@[id]) < n by {
                assert(tag_covered(groups@, id));
                let k = choose|k: int| 0 <= k < groups@.len() && (#[trigger] groups@[k]).id == id;
                assert(index_lookup@[id] == k);
            }
        }
        Ok(OrderingInstance { groups, index_lookup })
    }
}

impl GroupedOrdering for OrderingInstance {
    type Group = Group;

    /// The domain is the instance's kind: the groups with tags `0..n`.
    open spec fn in_domain(&self, g: Group) -> bool {
        self.has_group(g)
    }

    open spec fn rank_of(&self, g: Group) -> int {
        self.rank_spec(g)
    }

    /// Compare two groups of the kind by their ranks under this instance.
    fn compare(&self, a: &Group, b: &Group) -> (r: core::cmp::Ordering) {
        let ra = self.rank(*a);
        let rb = self.rank(*b);
        if ra < rb {
            core::cmp::Ordering::Less
        } else if ra == rb {
            core::cmp::Ordering::Equal
        } else {
            core::cmp::Ordering::Greater
        }
    }
}

/// The scan from position `i` finds nothing exactly when every entry from
/// `i` on carries a known tag and repeats no other entry of `s`.
pub proof fn lemma_first_flaw_none_rec(n: nat, s: Seq<Group>, i: nat)
    requires
        i <= s.len(),
    ensures
        first_flaw(n, s, i) is None <==> ((forall|k: int|
            i <= k < s.len() ==> (#[trigger] s[k]).id < n) && (forall|k1: int, k2: int|
            0 <= k1 < k2 < s.len() && k2 >= i ==> s[k1] != s[k2])),
    decreases s.len() - i,
{
    if i < s.len() {
        lemma_first_flaw_none_rec(n, s, i + 1);
    }
}

/// When every tag is in range, the only flaw a scan can find is a repeated
/// entry.
pub proof fn lemma_first_flaw_valid_tags(n: nat, s: Seq<Group>, i: nat)
    requires
        i <= s.len(),
        forall|k: int| 0 <= k < s.len() ==> (#[trigger] s[k]).id < n,
    ensures
        first_flaw(n, s, i) is None || first_flaw(n, s, i) == Some(OrderingError::DuplicateLabel),
    decreases s.len() - i,
{
    if i < s.len() {
        lemma_first_flaw_valid_tags(n, s, i + 1);
    }
}

/// LAW: every permutation is accepted.  A candidate of the kind's size whose
/// entries are known tags, none repeated, passes validation.
pub proof fn lemma_valid_permutation_accepted(n: nat, s: Seq<Group>)
    requires
        s.len() == n,
        forall|k: int| 0 <= k < n ==> (#[trigger] s[k]).id < n,
        forall|k1: int, k2: int| 0 <= k1 < k2 < n ==> s[k1] != s[k2],
    ensures
        construction_outcome(n, s) is None,
{
    lemma_first_flaw_none_rec(n, s, 0);
}

/// LAW: a repeated group is rejected as `DuplicateLabel`.  A candidate of
/// the kind's size, made of known tags, that repeats a group fails with
/// exactly that error.
pub proof fn lemma_duplicate_rejected(n: nat, s: Seq<Group>)
    requires
        s.len() == n,
        forall|k: int| 0 <= k < n ==> (#[trigger] s[k]).id < n,
        exists|k1: int, k2: int| 0 <= k1 < k2 < n && s[k1] == s[k2],
    ensures
        construction_outcome(n, s) == Some(OrderingError::DuplicateLabel),
{
    lemma_first_flaw_none_rec(n, s, 0);
    lemma_first_flaw_valid_tags(n, s, 0);
}

/// LAW: a candidate of the wrong length is rejected as `WrongCardinality`,
/// whatever its entries.
pub proof fn lemma_wrong_length_rejected(n: nat, s: Seq<Group>)
    requires
        s.len() != n,
    ensures
        construction_outcome(n, s) == Some(OrderingError::WrongCardinality),
{
}

/// LAW: ranks reproduce the permutation.  For a well-formed instance,
/// `rank_spec` sends the group at rank `r` back to `r`, and `permutation`
/// inverts it: the two lookups are mutually inverse bijections.
pub proof fn lemma_rank_inverts_permutation(inst: OrderingInstance)
    requires
        inst.wf(),
    ensures
        forall|r: int|
            0 <= r < inst.size_spec() ==> inst.rank_spec(#[trigger] inst.permutation()[r]) == r,
        forall|g: Group|
            inst.has_group(g) ==> 0 <= #[trigger] inst.rank_spec(g) < inst.size_spec(),
        forall|g: Group| inst.has_group(g) ==> inst.permutation()[#[trigger] inst.rank_spec(g)] == g,
{
}

/// LAW: an instance's behaviour is determined by its permutation alone.  Two
/// well-formed instances realising the same permutation assign every group
/// the same rank; in particular, repeated construction from one permutation
/// — by default, by explicit groups, or by deserialized names — always
/// yields the same ordering.
pub proof fn lemma_instance_determined_by_permutation(a: OrderingInstance, b: OrderingInstance)
    requires
        a.wf(),
        b.wf(),
        a.permutation() == b.permutation(),
    ensures
        forall|g: Group| a.has_group(g) ==> a.rank_spec(g) == #[trigger] b.rank_spec(g),
{
    lemma_rank_inverts_permutation(a);
    lemma_rank_inverts_permutation(b);
    assert forall|g: Group| a.has_group(g) implies a.rank_spec(g) == #[trigger] b.rank_spec(g) by {
        let r = a.rank_spec(g);
        assert(a.permutation()[r] == g);
        assert(b.rank_spec(b.permutation()[r]) == r);
    }
}

/// LAW: under the identity permutation — the default construction — every
/// group's rank is its declaration position.
pub proof fn lemma_identity_ranks(inst: OrderingInstance)
    requires
        inst.wf(),
        inst.permutation() == identity_permutation(inst.size_spec()),
    ensures
        forall|g: Group| inst.has_group(g) ==> #[trigger] inst.rank_spec(g) == g.id,
{
    lemma_rank_inverts_permutation(inst);
    assert forall|g: Group| inst.has_group(g) implies #[trigger] inst.rank_spec(g) == g.id by {
        assert(inst.permutation()[g.id as int] == g);
    }
}

/// Some entry of `s` carries the tag `id`.
spec fn tag_covered(s: Seq<Group>, id: int) -> bool {
    exists|k: int| 0 <= k < s.len() && (#[trigger] s[k]).id == id
}

/// Pigeonhole step behind the bijection invariant: `n` pairwise distinct tags
/// drawn from `0..n` leave no tag out.
proof fn lemma_distinct_tags_cover(s: Seq<Group>, n: nat)
    requires
        s.len() == n,
        forall|k: int| 0 <= k < n ==> (#[trigger] s[k]).id < n,
        forall|k1: int, k2: int| 0 <= k1 < k2 < n ==> s[k1] != s[k2],
    ensures
        forall|id: int| 0 <= id < n ==> #[trigger] tag_covered(s, id),
{
    broadcast use vstd::set::group_set_axioms;

    let ids = s.map_values(|g: Group| g.id as int);
    assert(ids.no_duplicates()) by {
        assert forall|k1: int, k2: int| 0 <= k1 < k2 < ids.len() implies ids[k1] != ids[k2] by {
            assert(s[k1] != s[k2]);
        }
    }
    ids.unique_seq_to_set();
    lemma_int_range(0, n as int);
    assert(ids.to_set().subset_of(set_int_range(0, n as int))) by {
        assert forall|x: int| ids.to_set().contains(x) implies set_int_range(
            0,
            n as int,
        ).contains(x) by {
            let k = choose|k: int| 0 <= k < ids.len() && ids[k] == x;
            assert(s[k].id < n);
        }
    }
    assert forall|id: int| 0 <= id < n implies #[trigger] tag_covered(s, id) by {
        if !ids.to_set().contains(id) {
            assert(ids.to_set().subset_of(set_int_range(0, n as int).remove(id)));
            lemma_len_subset(ids.to_set(), set_int_range(0, n as int).remove(id));
            assert(set_int_range(0, n as int).remove(id).len() == n - 1);
            assert(false);
        }
        let k = choose|k: int| 0 <= k < ids.len() && ids[k] == id;
        assert(s[k].id == id);
    }
}

} // verus!
