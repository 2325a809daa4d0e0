//! The kind-agnostic sort helper: a stable, verified insertion sort that
//! orders a vector of items by the ranks a grouped ordering assigns to
//! their groups.

use vstd::prelude::*;
use crate::ordering_traits::{GroupedOrderable, GroupedOrdering};

verus! {

/// The rank function a grouped ordering induces on orderable items: an
/// item's rank is the rank of its group.
pub open spec fn item_rank_fn<
    TGroupedOrdering: GroupedOrdering,
    T: GroupedOrderable<TGroupedOrdering>,
>(grouped_ordering: &TGroupedOrdering) -> spec_fn(T) -> int {
    |t: T| grouped_ordering.rank_of(t.group_spec())
}

/// Holds of the items ranked exactly `r`.
pub open spec fn rank_pred<T>(rank: spec_fn(T) -> int, r: int) -> spec_fn(T) -> bool {
    |t: T| rank(t) == r
}

/// The items of `s` ranked exactly `r`, in the order `s` holds them.
pub open spec fn rank_class<T>(s: Seq<T>, rank: spec_fn(T) -> int, r: int) -> Seq<T> {
    s.filter(rank_pred(rank, r))
}

/// Ranks never decrease along `s`.
pub open spec fn sorted_by_rank<T>(s: Seq<T>, rank: spec_fn(T) -> int) -> bool {
    forall|i: int, j: int| 0 <= i < j < s.len() ==> rank(s[i]) <= rank(s[j])
}

/// `post` is the stable sort of `pre` under `rank`: same length, ranks
/// non-decreasing, and every rank class — the items of one rank, in their
/// input order — unchanged.  These three clauses determine `post` uniquely
/// from `pre`.
pub open spec fn is_stable_sort<T>(pre: Seq<T>, post: Seq<T>, rank: spec_fn(T) -> int) -> bool {
    &&& post.len() == pre.len()
    &&& sorted_by_rank(post, rank)
    &&& forall|r: int| #[trigger] rank_class(post, rank, r) == rank_class(pre, rank, r)
}

/// Extension trait: sort a vector in place by a grouped ordering.
pub trait VecExt {
    type Item;

    /// The sequence of items held.
    spec fn items(&self) -> Seq<Self::Item>;

    /// Stably sort the items: afterwards the groups' ranks never decrease
    /// along the vector, and items of one group keep their relative input
    /// order.  Every item must map to a group of the ordering's domain.
    fn sort_by_grouped_ordering<TGroupedOrdering>(&mut self, grouped_ordering: &TGroupedOrdering)
        where
            TGroupedOrdering: GroupedOrdering,
            Self::Item: GroupedOrderable<TGroupedOrdering>,

        requires
            forall|k: int|
                0 <= k < old(self).items().len() ==> grouped_ordering.in_domain(
                    (#[trigger] old(self).items()[k]).group_spec(),
                ),
        ensures
            is_stable_sort(
                old(self).items(),
                final(self).items(),
                item_rank_fn::<TGroupedOrdering, Self::Item>(grouped_ordering),
            ),
    ;
}

/// Whether `rank(a) <= rank(b)`, decided through the ordering's comparator.
fn group_le<TGroupedOrdering: GroupedOrdering>(
    grouped_ordering: &TGroupedOrdering,
    a: &TGroupedOrdering::Group,
    b: &TGroupedOrdering::Group,
) -> (r: bool)
    requires
        grouped_ordering.in_domain(*a),
        grouped_ordering.in_domain(*b),
    ensures
        r == (grouped_ordering.rank_of(*a) <= grouped_ordering.rank_of(*b)),
{
    match grouped_ordering.compare(a, b) {
        core::cmp::Ordering::Greater => false,
        _ => true,
    }
}

/// A sequence none of whose items satisfies `pred` filters to nothing.
proof fn lemma_filter_none<T>(s: Seq<T>, pred: spec_fn(T) -> bool)
    requires
        forall|i: int| 0 <= i < s.len() ==> !pred(#[trigger] s[i]),
    ensures
        s.filter(pred) == Seq::<T>::empty(),
    decreases s.len(),
{
    reveal(Seq::filter);
    if s.len() == 0 {
        assert(s.filter(pred) =~= Seq::<T>::empty());
    } else {
        lemma_filter_none(s.drop_last(), pred);
        assert(!pred(s.last()));
        assert(s.filter(pred) =~= Seq::<T>::empty());
    }
}

/// Filtering a one-item sequence.
proof fn lemma_filter_singleton<T>(x: T, pred: spec_fn(T) -> bool)
    ensures
        pred(x) ==> seq![x].filter(pred) == seq![x],
        !pred(x) ==> seq![x].filter(pred) == Seq::<T>::empty(),
{
    reveal(Seq::filter);
    let s = seq![x];
    assert(Seq::<T>::empty().filter(pred) == Seq::<T>::empty()) by {
        assert(Seq::<T>::empty().filter(pred) =~= Seq::<T>::empty());
    }
    assert(s.drop_last() == Seq::<T>::empty()) by {
        assert(s.drop_last() =~= Seq::<T>::empty());
    }
    assert(s.last() == x);
    if pred(x) {
        assert(s.filter(pred) =~= seq![x]);
    } else {
        assert(s.filter(pred) =~= Seq::<T>::empty());
    }
}

/// Moving one item back over items of strictly greater rank changes no rank
/// class: nothing moves relative to the moved item within its own class,
/// and the other classes keep their internal order.
proof fn lemma_move_back_keeps_classes<T>(s: Seq<T>, i: int, j: int, rank: spec_fn(T) -> int)
    requires
        0 <= j <= i < s.len(),
        forall|k: int| j <= k < i ==> rank(#[trigger] s[k]) > rank(s[i]),
    ensures
        forall|r: int| #[trigger] rank_class(s.remove(i).insert(j, s[i]), rank, r) == rank_class(
            s,
            rank,
            r,
        ),
{
    let x = s[i];
    let a = s.subrange(0, j);
    let m = s.subrange(j, i);
    let b = s.subrange(i + 1, s.len() as int);
    let s2 = s.remove(i).insert(j, x);
    assert(s =~= a + m + seq![x] + b);
    assert(s2 =~= a + seq![x] + m + b);
    assert forall|r: int| #[trigger] rank_class(s2, rank, r) == rank_class(s, rank, r) by {
        let pred = rank_pred(rank, r);
        Seq::filter_distributes_over_add(a + m + seq![x], b, pred);
        Seq::filter_distributes_over_add(a + m, seq![x], pred);
        Seq::filter_distributes_over_add(a, m, pred);
        Seq::filter_distributes_over_add(a + seq![x] + m, b, pred);
        Seq::filter_distributes_over_add(a + seq![x], m, pred);
        Seq::filter_distributes_over_add(a, seq![x], pred);
        lemma_filter_singleton(x, pred);
        if rank(x) == r {
            lemma_filter_none(m, pred);
            assert(s2.filter(pred) =~= s.filter(pred));
        } else {
            assert(s2.filter(pred) =~= s.filter(pred));
        }
    }
}

/// `x` alone, kept or dropped by `pred`.
spec fn filtered_one<T>(x: T, pred: spec_fn(T) -> bool) -> Seq<T> {
    if pred(x) {
        seq![x]
    } else {
        Seq::<T>::empty()
    }
}

/// The rank class of a three-item sequence, spelt out item by item.
proof fn lemma_class_of_three<T>(s: Seq<T>, rank: spec_fn(T) -> int, r: int)
    requires
        s.len() == 3,
    ensures
        rank_class(s, rank, r) == filtered_one(s[0], rank_pred(rank, r)) + filtered_one(
            s[1],
            rank_pred(rank, r),
        ) + filtered_one(s[2], rank_pred(rank, r)),
{
    let pred = rank_pred(rank, r);
    assert(s =~= seq![s[0]] + seq![s[1]] + seq![s[2]]);
    Seq::filter_distributes_over_add(seq![s[0]] + seq![s[1]], seq![s[2]], pred);
    Seq::filter_distributes_over_add(seq![s[0]], seq![s[1]], pred);
    lemma_filter_singleton(s[0], pred);
    lemma_filter_singleton(s[1], pred);
    lemma_filter_singleton(s[2], pred);
}

/// LAW: stability, pinned on a witness shape.  Take any three items whose
/// first and last share a rank while the middle one ranks strictly earlier:
/// their stable sort is exactly the middle item first, then the other two
/// still in their input order.
pub proof fn lemma_stable_sort_triple<T>(pre: Seq<T>, post: Seq<T>, rank: spec_fn(T) -> int)
    requires
        pre.len() == 3,
        rank(pre[2]) == rank(pre[0]),
        rank(pre[1]) < rank(pre[0]),
        is_stable_sort(pre, post, rank),
    ensures
        post == seq![pre[1], pre[0], pre[2]],
{
    let r0 = rank(pre[0]);
    let r1 = rank(pre[1]);
    lemma_class_of_three(pre, rank, r0);
    lemma_class_of_three(pre, rank, r1);
    lemma_class_of_three(post, rank, r0);
    lemma_class_of_three(post, rank, r1);
    assert(rank_class(pre, rank, r1) == seq![pre[1]]);
    assert(rank_class(pre, rank, r0) =~= seq![pre[0], pre[2]]);
    // Every rank in `post` is one of the two ranks of `pre`.
    assert forall|k: int| 0 <= k < 3 implies rank(post[k]) == r0 || rank(post[k]) == r1 by {
        let rk = rank(post[k]);
        lemma_class_of_three(post, rank, rk);
        assert(rank_class(post, rank, rk).len() >= 1);
        if rk != r0 && rk != r1 {
            lemma_class_of_three(pre, rank, rk);
            assert(rank_class(pre, rank, rk).len() == 0);
        }
    }
    assert(rank(post[0]) <= rank(post[1]) && rank(post[1]) <= rank(post[2])) by {
        assert(sorted_by_rank(post, rank));
    }
    // Exactly one item of `post` ranks `r1`, and sortedness puts it first.
    assert(rank_class(post, rank, r1) == seq![pre[1]]);
    assert(rank(post[0]) == r1) by {
        if rank(post[0]) != r1 {
            assert(rank(post[0]) == r0);
            assert(rank(post[1]) == r0);
            assert(rank(post[2]) == r0);
            assert(filtered_one(post[0], rank_pred(rank, r1)) == Seq::<T>::empty());
            assert(filtered_one(post[1], rank_pred(rank, r1)) == Seq::<T>::empty());
            assert(filtered_one(post[2], rank_pred(rank, r1)) == Seq::<T>::empty());
            assert(rank_class(post, rank, r1).len() == 0);
        }
    }
    assert(post[0] == pre[1]) by {
        assert(filtered_one(post[0], rank_pred(rank, r1)) == seq![post[0]]);
        if rank(post[1]) == r1 || rank(post[2]) == r1 {
            assert(rank_class(post, rank, r1).len() >= 2);
            assert(false);
        }
        assert(filtered_one(post[1], rank_pred(rank, r1)) == Seq::<T>::empty());
        assert(filtered_one(post[2], rank_pred(rank, r1)) == Seq::<T>::empty());
        assert(seq![post[0]] + Seq::<T>::empty() + Seq::<T>::empty() =~= seq![post[0]]);
        assert(seq![post[0]] == seq![pre[1]]);
        assert(seq![post[0]][0] == seq![pre[1]][0]);
    }
    // The other two rank `r0` and keep their input order.
    assert(rank(post[1]) == r0 && rank(post[2]) == r0);
    assert(rank_class(post, rank, r0) == seq![pre[0], pre[2]]);
    assert(Seq::<T>::empty() + seq![post[1]] + seq![post[2]] =~= seq![post[1], post[2]]);
    assert(seq![post[1], post[2]] == seq![pre[0], pre[2]]);
    assert(post[1] == pre[0] && post[2] == pre[2]) by {
        assert(seq![post[1], post[2]][0] == seq![pre[0], pre[2]][0]);
        assert(seq![post[1], post[2]][1] == seq![pre[0], pre[2]][1]);
    }
    assert(post =~= seq![pre[1], pre[0], pre[2]]);
}

impl<T> VecExt for Vec<T> {
    type Item = T;

    open spec fn items(&self) -> Seq<T> {
        self@
    }

    fn sort_by_grouped_ordering<TGroupedOrdering>(&mut self, grouped_ordering: &TGroupedOrdering)
        where TGroupedOrdering: GroupedOrdering, T: GroupedOrderable<TGroupedOrdering>,
    {
        let ghost rank = item_rank_fn::<TGroupedOrdering, T>(grouped_ordering);
        let ghost orig = self@;
        proof {
            assert forall|k: int|
                0 <= k < self@.len() implies grouped_ordering.in_domain(
                (#[trigger] self@[k]).group_spec(),
            ) by {
                assert(grouped_ordering.in_domain((old(self).items()[k]).group_spec()));
            }
        }
        let n: usize = self.len();
        let mut i: usize = if n <= 1 {
            n
        } else {
            1
        };
        while i < n
            invariant
                self@.len() == n,
                orig.len() == n,
                i <= n,
                n <= 1 ==> i == n,
                n >= 2 ==> 1 <= i,
                rank == item_rank_fn::<TGroupedOrdering, T>(grouped_ordering),
                forall|k: int|
                    0 <= k < n ==> grouped_ordering.in_domain(
                        (#[trigger] self@[k]).group_spec(),
                    ),
                sorted_by_rank(self@.subrange(0, i as int), rank),
                forall|r: int| #[trigger] rank_class(self@, rank, r) == rank_class(orig, rank, r),
            decreases n - i,
        {
            let g_cur = self[i].map_to_grouped_ordering();
            let ghost prev = self@;
            proof {
                assert(rank(prev[i as int]) == grouped_ordering.rank_of(g_cur));
            }
            let mut j: usize = i;
            loop
                invariant
                    self@ == prev,
                    prev.len() == n,
                    j <= i < n,
                    rank == item_rank_fn::<TGroupedOrdering, T>(grouped_ordering),
                    forall|k: int|
                        0 <= k < n ==> grouped_ordering.in_domain(
                            (#[trigger] self@[k]).group_spec(),
                        ),
                    g_cur == prev[i as int].group_spec(),
                    forall|k: int| j <= k < i ==> rank(#[trigger] prev[k]) > rank(prev[i as int]),
                ensures
                    self@ == prev,
                    j <= i,
                    forall|k: int| j <= k < i ==> rank(#[trigger] prev[k]) > rank(prev[i as int]),
                    j == 0 || rank(prev[j - 1]) <= rank(prev[i as int]),
                decreases j,
            {
                if j == 0 {
                    break;
                }
                let g_prev = self[j - 1].map_to_grouped_ordering();
                proof {
                    assert(rank(prev[j - 1]) == grouped_ordering.rank_of(g_prev));
                }
                if group_le(grouped_ordering, &g_prev, &g_cur) {
                    break;
                }
                j -= 1;
            }
            if j < i {
                let x = self.remove(i);
                self.insert(j, x);
                proof {
                    assert(self@ == prev.remove(i as int).insert(j as int, prev[i as int]));
                    lemma_move_back_keeps_classes(prev, i as int, j as int, rank);
                    assert forall|r: int| #[trigger] rank_class(self@, rank, r) == rank_class(
                        orig,
                        rank,
                        r,
                    ) by {
                        assert(rank_class(self@, rank, r) == rank_class(prev, rank, r));
                        assert(rank_class(prev, rank, r) == rank_class(orig, rank, r));
                    }
                    assert forall|k1: int, k2: int| 0 <= k1 < k2 <= i implies rank(
                        self@[k1],
                    ) <= rank(self@[k2]) by {
                        assert(forall|k: int|
                            0 <= k < i ==> prev.subrange(0, i as int)[k] == prev[k]);
                        assert(forall|k: int| 0 <= k < j ==> self@[k] == prev[k]);
                        assert(self@[j as int] == prev[i as int]);
                        assert(forall|k: int| j < k <= i ==> self@[k] == prev[k - 1]);
                    }
                    assert(sorted_by_rank(self@.subrange(0, (i + 1) as int), rank)) by {
                        assert(forall|k: int|
                            0 <= k < i + 1 ==> self@.subrange(0, (i + 1) as int)[k] == self@[k]);
                    }
                    assert forall|k: int|
                        0 <= k < n implies grouped_ordering.in_domain(
                        (#[trigger] self@[k]).group_spec(),
                    ) by {
                        if k < j {
                            assert(self@[k] == prev[k]);
                        } else if k == j {
                            assert(self@[k] == prev[i as int]);
                        } else if k <= i {
                            assert(self@[k] == prev[k - 1]);
                        } else {
                            assert(self@[k] == prev[k]);
                        }
                    }
                }
            } else {
                proof {
                    assert forall|k1: int, k2: int| 0 <= k1 < k2 <= i implies rank(
                        self@[k1],
                    ) <= rank(self@[k2]) by {
                        assert(forall|k: int|
                            0 <= k < i ==> prev.subrange(0, i as int)[k] == prev[k]);
                        if k2 == i && k1 < i - 1 {
                            assert(rank(prev[k1]) <= rank(prev[i - 1]));
                        }
                    }
                    assert(sorted_by_rank(self@.subrange(0, (i + 1) as int), rank)) by {
                        assert(forall|k: int|
                            0 <= k < i + 1 ==> self@.subrange(0, (i + 1) as int)[k] == self@[k]);
                    }
                }
            }
            i += 1;
        }
        proof {
            assert(self@.subrange(0, n as int) =~= self@);
        }
    }
}

} // verus!
