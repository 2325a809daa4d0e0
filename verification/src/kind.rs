//! Kinds: closed, named label sets with their declaration order, and the
//! constructors that make ordering instances of a kind.

use vstd::prelude::*;
use vstd::pervasive::unreached;
use crate::errors::OrderingError;
use crate::groups::Group;
use crate::instance::{
    construction_outcome, identity_permutation, lemma_instance_determined_by_permutation,
    lemma_valid_permutation_accepted, OrderingInstance,
};

verus! {

/// The views of a vector of names: each name as its character sequence.
pub open spec fn name_views(names: Seq<String>) -> Seq<Seq<char>> {
    Seq::new(names.len(), |i: int| names[i]@)
}

/// What declaring a kind from the label names `ns` yields: `None` on
/// success; `WrongCardinality` for an empty declaration (a kind has at least
/// one label); `DuplicateLabel` for a repeated name.
pub open spec fn declaration_outcome(ns: Seq<Seq<char>>) -> Option<OrderingError> {
    if ns.len() == 0 {
        Some(OrderingError::WrongCardinality)
    } else if exists|i: int, j: int| 0 <= i < j < ns.len() && ns[i] == ns[j] {
        Some(OrderingError::DuplicateLabel)
    } else {
        None
    }
}

/// What deserializing an ordering of a kind with label names `kn` from the
/// name sequence `s` yields: `None` on success.  A sequence of the wrong
/// length is `WrongCardinality` — deserialization requires exactly the full
/// label set; otherwise a name outside the label set is `UnknownLabel`, and
/// failing that a repeated name is `DuplicateLabel`.
pub open spec fn deserialization_outcome(kn: Seq<Seq<char>>, s: Seq<Seq<char>>) -> Option<
    OrderingError,
> {
    if s.len() != kn.len() {
        Some(OrderingError::WrongCardinality)
    } else if exists|i: int| 0 <= i < s.len() && !kn.contains(s[i]) {
        Some(OrderingError::UnknownLabel)
    } else if exists|i: int, j: int| 0 <= i < j < s.len() && s[i] == s[j] {
        Some(OrderingError::DuplicateLabel)
    } else {
        None
    }
}

/// A kind: a closed set of group labels, each carrying a name, in a fixed
/// declaration order.  Declared once, never changed afterwards; every
/// ordering instance of the kind is made through the kind's validating
/// constructors.
#[derive(Debug)]
pub struct OrderingKind {
    names: Vec<String>,
}

impl OrderingKind {
    /// A kind holds at least one label, and no two labels share a name.
    #[verifier::type_invariant]
    pub closed spec fn wf(self) -> bool {
        &&& self.names@.len() >= 1
        &&& forall|i: int, j: int|
            0 <= i < j < self.names@.len() ==> self.names@[i]@ != self.names@[j]@
    }

    /// The declared label names, in declaration order.
    pub closed spec fn names_spec(self) -> Seq<Seq<char>> {
        name_views(self.names@)
    }

    /// The number of labels of this kind.
    pub open spec fn size_spec(self) -> nat {
        self.names_spec().len()
    }

    /// A well-formed kind declares at least one label and no name twice.
    pub proof fn lemma_names_distinct(self)
        requires
            self.wf(),
        ensures
            self.size_spec() >= 1,
            forall|i: int, j: int|
                0 <= i < j < self.size_spec() ==> self.names_spec()[i] != self.names_spec()[j],
    {
    }

    /// Declare a kind from its label names, in declaration order.  Succeeds
    /// exactly on a non-empty list of pairwise distinct names.
    pub fn new(names: Vec<String>) -> (res: Result<Self, OrderingError>)
        ensures
            match res {
                Ok(kind) => {
                    &&& declaration_outcome(name_views(names@)) is None
                    &&& kind.wf()
                    &&& kind.names_spec() == name_views(names@)
                },
                Err(e) => declaration_outcome(name_views(names@)) == Some(e),
            },
    {
        let n: usize = names.len();
        if n == 0 {
            return Err(OrderingError::WrongCardinality);
        }
        let mut i: usize = 1;
        while i < n
            invariant
                names@.len() == n,
                1 <= i <= n,
                forall|a: int, b: int| 0 <= a < b < i ==> names@[a]@ != names@[b]@,
            decreases n - i,
        {
            let mut j: usize = 0;
            while j < i
                invariant
                    names@.len() == n,
                    j <= i < n,
                    forall|b: int| 0 <= b < j ==> names@[b]@ != names@[i as int]@,
                decreases i - j,
            {
                if names[j] == names[i] {
                    proof {
                        assert(name_views(names@)[j as int] == name_views(names@)[i as int]);
                    }
                    return Err(OrderingError::DuplicateLabel);
                }
                j += 1;
            }
            i += 1;
        }
        proof {
            assert forall|a: int, b: int|
                0 <= a < b < n implies name_views(names@)[a] != name_views(names@)[b] by {
                assert(names@[a]@ != names@[b]@);
            }
        }
        Ok(OrderingKind { names })
    }

    /// The number of labels of this kind.
    pub fn size(&self) -> (n: usize)
        ensures
            n == self.size_spec(),
    {
        self.names.len()
    }

    /// The group declared at `index`, when there is one: the smart
    /// constructor for group tags of this kind.
    pub fn group(&self, index: usize) -> (res: Option<Group>)
        ensures
            match res {
                Some(g) => index < self.size_spec() && g == (Group { id: index }),
                None => index >= self.size_spec(),
            },
    {
        if index < self.names.len() {
            Some(Group { id: index })
        } else {
            None
        }
    }

    /// All groups of this kind, in declaration order.
    pub fn groups(&self) -> (v: Vec<Group>)
        ensures
            v@ == identity_permutation(self.size_spec()),
    {
        let n: usize = self.names.len();
        let mut v: Vec<Group> = Vec::new();
        let mut i: usize = 0;
        while i < n
            invariant
                v@.len() == i,
                i <= n,
                forall|k: int| 0 <= k < i ==> (#[trigger] v@[k]) == (Group { id: k as usize }),
            decreases n - i,
        {
            v.push(Group { id: i });
            i += 1;
        }
        proof {
            assert(v@ =~= identity_permutation(self.size_spec()));
        }
        v
    }

    /// Look a group up by its declared name.
    pub fn group_named(&self, name: &String) -> (res: Option<Group>)
        ensures
            match res {
                Some(g) => {
                    &&& g.id < self.size_spec()
                    &&& self.names_spec()[g.id as int] == name@
                },
                None => !self.names_spec().contains(name@),
            },
    {
        let n: usize = self.names.len();
        let mut i: usize = 0;
        while i < n
            invariant
                i <= n,
                n == self.names@.len(),
                forall|k: int| 0 <= k < i ==> self.names@[k]@ != name@,
            decreases n - i,
        {
            if self.names[i] == *name {
                return Some(Group { id: i });
            }
            i += 1;
        }
        proof {
            assert forall|k: int| 0 <= k < n implies self.names_spec()[k] != name@ by {
                assert(self.names@[k]@ != name@);
            }
        }
        None
    }

    /// Validating constructor: make the ordering instance realising the
    /// explicit permutation `groups`.  Succeeds exactly on the permutations
    /// of this kind's label set; otherwise reports the first flaw found, a
    /// wrong length before anything else.
    pub fn ordering_from(&self, groups: Vec<Group>) -> (res: Result<
        OrderingInstance,
        OrderingError,
    >)
        ensures
            match res {
                Ok(inst) => {
                    &&& construction_outcome(self.size_spec(), groups@) is None
                    &&& inst.wf()
                    &&& inst.permutation() == groups@
                    &&& inst.size_spec() == self.size_spec()
                },
                Err(e) => construction_outcome(self.size_spec(), groups@) == Some(e),
            },
    {
        OrderingInstance::try_from_permutation(self.names.len(), groups)
    }

    /// The canonical default instance of this kind: the identity
    /// permutation, ranking every group by its declaration order.  It is
    /// made through the validating constructor, whose success is proved, and
    /// is the same ordering on every call.
    pub fn default_ordering(&self) -> (inst: OrderingInstance)
        ensures
            inst.wf(),
            inst.permutation() == identity_permutation(self.size_spec()),
            inst.size_spec() == self.size_spec(),
    {
        let n_exec: usize = self.names.len();
        let v = self.groups();
        match self.ordering_from(v) {
            Ok(inst) => inst,
            Err(_) => {
                proof {
                    let n = self.size_spec();
                    assert(n == n_exec);
                    let idseq = identity_permutation(n);
                    assert forall|k1: int, k2: int|
                        0 <= k1 < k2 < n implies idseq[k1] != idseq[k2] by {
                        assert(idseq[k1].id == k1 && idseq[k2].id == k2);
                    }
                    lemma_valid_permutation_accepted(n, idseq);
                }
                unreached()
            },
        }
    }

    /// The concise instantiation path: make the instance for a permutation
    /// already known to be valid.  It funnels through the validating
    /// constructor — no weaker path exists — and the precondition excludes
    /// exactly the inputs that constructor rejects.
    pub fn instantiate(&self, groups: Vec<Group>) -> (inst: OrderingInstance)
        requires
            construction_outcome(self.size_spec(), groups@) is None,
        ensures
            inst.wf(),
            inst.permutation() == groups@,
            inst.size_spec() == self.size_spec(),
    {
        match self.ordering_from(groups) {
            Ok(inst) => inst,
            Err(_) => unreached(),
        }
    }

    /// Deserialize an ordering instance from its external representation: an
    /// ordered sequence of label names, naming every label of the kind
    /// exactly once in the desired rank order.  On success, the group at
    /// each rank is the one declared under the name at that position.
    pub fn ordering_from_names(&self, names: &Vec<String>) -> (res: Result<
        OrderingInstance,
        OrderingError,
    >)
        ensures
            match res {
                Ok(inst) => {
                    &&& deserialization_outcome(self.names_spec(), name_views(names@)) is None
                    &&& inst.wf()
                    &&& inst.size_spec() == self.size_spec()
                    &&& inst.permutation().len() == names@.len()
                    &&& forall|k: int|
                        0 <= k < names@.len()
                            ==> (#[trigger] inst.permutation()[k]).id < self.size_spec()
                            && self.names_spec()[inst.permutation()[k].id as int] == names@[k]@
                },
                Err(e) => deserialization_outcome(self.names_spec(), name_views(names@))
                    == Some(e),
            },
    {
        proof {
            use_type_invariant(&*self);
        }
        let ghost kn = self.names_spec();
        let ghost nv = name_views(names@);
        let n: usize = self.names.len();
        if names.len() != n {
            return Err(OrderingError::WrongCardinality);
        }
        let mut groups: Vec<Group> = Vec::new();
        let mut k: usize = 0;
        while k < n
            invariant
                self.wf(),
                kn == self.names_spec(),
                nv == name_views(names@),
                names@.len() == n,
                n == self.size_spec(),
                groups@.len() == k,
                k <= n,
                forall|t: int| 0 <= t < k ==> (#[trigger] groups@[t]).id < n,
                forall|t: int|
                    0 <= t < k ==> kn[(#[trigger] groups@[t]).id as int] == names@[t]@,
            decreases n - k,
        {
            match self.group_named(&names[k]) {
                Some(g) => {
                    groups.push(g);
                    k += 1;
                },
                None => {
                    proof {
                        assert(nv[k as int] == names@[k as int]@);
                        assert(!kn.contains(nv[k as int]));
                        assert(deserialization_outcome(kn, nv)
                            == Some(OrderingError::UnknownLabel));
                    }
                    return Err(OrderingError::UnknownLabel);
                },
            }
        }
        let ghost gseq = groups@;
        proof {
            // Every input name is a declared one, and two positions hold the
            // same group exactly when they hold the same name.
            assert forall|i: int| 0 <= i < n implies kn.contains(#[trigger] nv[i]) by {
                assert(kn[gseq[i].id as int] == names@[i]@);
                assert(nv[i] == names@[i]@);
            }
            assert forall|i: int, j: int| 0 <= i < j < n implies ((gseq[i] == gseq[j]) <==> (
            nv[i] == nv[j])) by {
                if gseq[i] == gseq[j] {
                    assert(nv[i] == kn[gseq[i].id as int]);
                    assert(nv[j] == kn[gseq[j].id as int]);
                }
                if nv[i] == nv[j] {
                    assert(kn[gseq[i].id as int] == kn[gseq[j].id as int]);
                    if gseq[i].id != gseq[j].id {
                        assert(false);
                    }
                }
            }
        }
        match self.ordering_from(groups) {
            Ok(inst) => {
                proof {
                    crate::instance::lemma_first_flaw_none_rec(n as nat, gseq, 0);
                    assert(deserialization_outcome(kn, nv) is None);
                }
                Ok(inst)
            },
            Err(e) => {
                proof {
                    crate::instance::lemma_first_flaw_none_rec(n as nat, gseq, 0);
                    crate::instance::lemma_first_flaw_valid_tags(n as nat, gseq, 0);
                    assert(e == OrderingError::DuplicateLabel);
                    let (i, j) = choose|i: int, j: int|
                        0 <= i < j < gseq.len() && gseq[i] == gseq[j];
                    assert(nv[i] == nv[j]);
                    assert(deserialization_outcome(kn, nv)
                        == Some(OrderingError::DuplicateLabel));
                }
                Err(e)
            },
        }
    }
}

/// LAW: a name outside the label set is rejected as `UnknownLabel`.  A
/// name sequence of the kind's size containing an undeclared name fails
/// deserialization with exactly that error.
pub proof fn lemma_unknown_name_rejected(kn: Seq<Seq<char>>, s: Seq<Seq<char>>)
    requires
        s.len() == kn.len(),
        exists|i: int| 0 <= i < s.len() && !kn.contains(#[trigger] s[i]),
    ensures
        deserialization_outcome(kn, s) == Some(OrderingError::UnknownLabel),
{
}

/// LAW: one name sequence, one ordering.  Whether an instance of `kind` was
/// deserialized from the names `names` or built by listing the groups those
/// names declare, the result is the same: equal permutations, and every
/// group at the same rank.
pub proof fn lemma_same_names_same_ordering(
    kind: OrderingKind,
    names: Seq<Seq<char>>,
    a: OrderingInstance,
    b: OrderingInstance,
)
    requires
        kind.wf(),
        a.wf(),
        b.wf(),
        a.permutation().len() == names.len(),
        b.permutation().len() == names.len(),
        forall|k: int|
            0 <= k < names.len() ==> (#[trigger] a.permutation()[k]).id < kind.size_spec()
                && kind.names_spec()[a.permutation()[k].id as int] == names[k],
        forall|k: int|
            0 <= k < names.len() ==> (#[trigger] b.permutation()[k]).id < kind.size_spec()
                && kind.names_spec()[b.permutation()[k].id as int] == names[k],
    ensures
        a.permutation() == b.permutation(),
        forall|g: Group| a.has_group(g) ==> a.rank_spec(g) == #[trigger] b.rank_spec(g),
{
    assert forall|k: int|
        0 <= k < names.len() implies (#[trigger] a.permutation()[k]) == b.permutation()[k] by {
        let ga = a.permutation()[k];
        let gb = b.permutation()[k];
        if ga.id != gb.id {
            assert(kind.names_spec()[ga.id as int] == kind.names_spec()[gb.id as int]);
            assert(false);
        }
    }
    assert(a.permutation() =~= b.permutation());
    lemma_instance_determined_by_permutation(a, b);
}

} // verus!
