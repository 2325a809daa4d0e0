//! Sorting collections of items by a grouped ordering, including through a
//! hand-written implementation of the capability traits.

use std::cmp::Ordering;
use std::collections::HashMap;

use grouped_ordering::{Group, GroupedOrderable, GroupedOrdering, OrderingInstance, OrderingKind, VecExt};

fn kind3() -> OrderingKind {
    OrderingKind::new(vec!["a".to_string(), "b".to_string(), "c".to_string()]).unwrap()
}

fn abc(kind: &OrderingKind) -> (Group, Group, Group) {
    (
        kind.group(0).unwrap(),
        kind.group(1).unwrap(),
        kind.group(2).unwrap(),
    )
}

/// A number, mapped to the group at declaration position `value % 3`.
#[derive(Copy, Clone, Debug, PartialEq, Eq)]
struct Num(u32);

impl GroupedOrderable<OrderingInstance> for Num {
    fn map_to_grouped_ordering(&self) -> Group {
        Group {
            id: (self.0 % 3) as usize,
        }
    }
}

fn nums(values: &[u32]) -> Vec<Num> {
    values.iter().map(|v| Num(*v)).collect()
}

/// A record with a group tag and a payload telling equal-group records
/// apart.
#[derive(Copy, Clone, Debug, PartialEq, Eq)]
struct Record {
    group: u32,
    payload: u32,
}

impl GroupedOrderable<OrderingInstance> for Record {
    fn map_to_grouped_ordering(&self) -> Group {
        Group {
            id: (self.group % 3) as usize,
        }
    }
}

#[derive(Copy, Clone, Debug, PartialEq, Eq, Hash)]
enum GroupedOrderingFooGroup {
    A,
    B,
    C,
}

struct GroupedOrderingFoo {
    #[allow(dead_code)]
    groups: [GroupedOrderingFooGroup; 3],
    index_lookup: HashMap<GroupedOrderingFooGroup, usize>,
}

impl GroupedOrdering for GroupedOrderingFoo {
    type Group = GroupedOrderingFooGroup;

    fn compare(&self, a: &GroupedOrderingFooGroup, b: &GroupedOrderingFooGroup) -> Ordering {
        self.index_lookup[a].cmp(&self.index_lookup[b])
    }
}

impl TryFrom<[GroupedOrderingFooGroup; 3]> for GroupedOrderingFoo {
    type Error = String;

    fn try_from(groups: [GroupedOrderingFooGroup; 3]) -> Result<Self, Self::Error> {
        let index_lookup: HashMap<GroupedOrderingFooGroup, usize> = groups
            .into_iter()
            .enumerate()
            .map(|(index, group)| (group, index))
            .collect();
        if index_lookup.len() < 3 {
            return Err("Found duplicate groups".to_owned());
        }
        Ok(Self {
            groups,
            index_lookup,
        })
    }
}

impl GroupedOrderable<GroupedOrderingFoo> for u32 {
    fn map_to_grouped_ordering(&self) -> GroupedOrderingFooGroup {
        match self % 3 {
            0 => GroupedOrderingFooGroup::A,
            1 => GroupedOrderingFooGroup::B,
            2 => GroupedOrderingFooGroup::C,
            _ => unreachable!(),
        }
    }
}

#[test]
fn test_manual_impl_vec_sort() {
    let grouped_ordering: GroupedOrderingFoo = [
        GroupedOrderingFooGroup::A,
        GroupedOrderingFooGroup::B,
        GroupedOrderingFooGroup::C,
    ]
    .try_into()
    .unwrap();

    let mut values: Vec<u32> = vec![0, 1, 2, 3, 4, 5];
    values.sort_by_grouped_ordering(&grouped_ordering);
    assert_eq!(values, vec![0, 3, 1, 4, 2, 5]);
}

#[test]
fn test_vec_sort() {
    let kind = kind3();
    let (a, b, c) = abc(&kind);

    let grouped_ordering = kind.ordering_from(vec![a, b, c]).unwrap();

    let mut values = nums(&[0, 1, 2, 3, 4, 5]);
    values.sort_by_grouped_ordering(&grouped_ordering);
    assert_eq!(values, nums(&[0, 3, 1, 4, 2, 5]));
}

#[test]
fn test_instantiate_macro() {
    let kind = kind3();
    let (a, b, c) = abc(&kind);

    let grouped_ordering = kind.instantiate(vec![a, b, c]);

    let mut values = nums(&[0, 1, 2, 3, 4, 5]);
    values.sort_by_grouped_ordering(&grouped_ordering);
    assert_eq!(values, nums(&[0, 3, 1, 4, 2, 5]));
}

#[test]
fn test_sort_is_stable() {
    let kind = kind3();
    let ordering = kind.default_ordering();

    let x0 = Record {
        group: 1,
        payload: 10,
    };
    let x1 = Record {
        group: 0,
        payload: 11,
    };
    let x2 = Record {
        group: 1,
        payload: 12,
    };
    let mut records = vec![x0, x1, x2];
    records.sort_by_grouped_ordering(&ordering);
    assert_eq!(records, vec![x1, x0, x2]);
}

#[test]
fn test_sort_empty_and_single() {
    let kind = kind3();
    let ordering = kind.default_ordering();

    let mut empty: Vec<Num> = Vec::new();
    empty.sort_by_grouped_ordering(&ordering);
    assert_eq!(empty, Vec::<Num>::new());

    let mut one = nums(&[4]);
    one.sort_by_grouped_ordering(&ordering);
    assert_eq!(one, nums(&[4]));
}

#[test]
fn test_compare_follows_ranks() {
    let kind = kind3();
    let (a, b, c) = abc(&kind);

    let grouped_ordering = kind.instantiate(vec![b, a, c]);

    assert_eq!(grouped_ordering.compare(&a, &b), Ordering::Greater);
    assert_eq!(grouped_ordering.compare(&b, &a), Ordering::Less);
    assert_eq!(grouped_ordering.compare(&c, &c), Ordering::Equal);
    assert_eq!(grouped_ordering.compare(&a, &c), Ordering::Less);
}
