//! Constructing kinds and ordering instances, and querying them.

use grouped_ordering::{Group, OrderingError, OrderingKind};

fn kind3() -> OrderingKind {
    OrderingKind::new(vec!["a".to_string(), "b".to_string(), "c".to_string()]).unwrap()
}

fn abc(kind: &OrderingKind) -> (Group, Group, Group) {
    (
        kind.group(0).unwrap(),
        kind.group(1).unwrap(),
        kind.group(2).unwrap(),
    )
}

#[test]
fn test_default() {
    let kind = kind3();
    let (a, b, c) = abc(&kind);

    assert_eq!(kind.default_ordering().groups(), vec![a, b, c]);
}

#[test]
fn test_try_into_from_list_with_duplicates_fails() {
    let kind = kind3();
    let (a, b, _) = abc(&kind);

    assert!(kind.ordering_from(vec![a, b, b]).is_err());
}

#[test]
fn test_index_by_group() {
    let kind = kind3();
    let (a, b, c) = abc(&kind);

    let grouped_ordering = kind.instantiate(vec![c, a, b]);

    assert_eq!(grouped_ordering.rank(a), 1);
}

#[test]
fn test_index_by_usize() {
    let kind = kind3();
    let (a, b, c) = abc(&kind);

    let grouped_ordering = kind.instantiate(vec![c, a, b]);

    assert_eq!(grouped_ordering.group_at(0), c);
}

#[test]
fn test_kind_with_duplicate_names_fails() {
    let result = OrderingKind::new(vec!["a".to_string(), "b".to_string(), "a".to_string()]);
    assert_eq!(result.unwrap_err(), OrderingError::DuplicateLabel);
}

#[test]
fn test_kind_with_no_names_fails() {
    let result = OrderingKind::new(Vec::new());
    assert_eq!(result.unwrap_err(), OrderingError::WrongCardinality);
}

#[test]
fn test_duplicate_group_error_kind() {
    let kind = kind3();
    let (a, b, _) = abc(&kind);

    assert_eq!(
        kind.ordering_from(vec![a, b, b]).unwrap_err(),
        OrderingError::DuplicateLabel
    );
}

#[test]
fn test_short_permutation_error_kind() {
    let kind = kind3();
    let (a, b, _) = abc(&kind);

    assert_eq!(
        kind.ordering_from(vec![a, b]).unwrap_err(),
        OrderingError::WrongCardinality
    );
}

#[test]
fn test_foreign_tag_error_kind() {
    let kind = kind3();
    let (a, b, _) = abc(&kind);

    assert_eq!(
        kind.ordering_from(vec![a, b, Group { id: 7 }]).unwrap_err(),
        OrderingError::UnknownLabel
    );
}

#[test]
fn test_rank_and_group_at_invert_each_other() {
    let kind = kind3();
    let (a, b, c) = abc(&kind);

    let grouped_ordering = kind.instantiate(vec![c, a, b]);

    assert_eq!(grouped_ordering.rank(c), 0);
    assert_eq!(grouped_ordering.rank(a), 1);
    assert_eq!(grouped_ordering.rank(b), 2);
    assert_eq!(grouped_ordering.group_at(0), c);
    assert_eq!(grouped_ordering.group_at(1), a);
    assert_eq!(grouped_ordering.group_at(2), b);
}

#[test]
fn test_default_is_identity_and_repeatable() {
    let kind = kind3();
    let (a, b, c) = abc(&kind);

    let first = kind.default_ordering();
    let second = kind.default_ordering();
    let explicit = kind.ordering_from(vec![a, b, c]).unwrap();

    assert_eq!(first.groups(), second.groups());
    assert_eq!(first.groups(), explicit.groups());
    for g in [a, b, c] {
        assert_eq!(first.rank(g), second.rank(g));
        assert_eq!(first.rank(g), explicit.rank(g));
        assert_eq!(first.rank(g), g.id);
    }
}

#[test]
fn test_single_label_kind() {
    let kind = OrderingKind::new(vec!["only".to_string()]).unwrap();
    let only = kind.group(0).unwrap();

    assert_eq!(kind.size(), 1);
    let ordering = kind.default_ordering();
    assert_eq!(ordering.size(), 1);
    assert_eq!(ordering.rank(only), 0);
    assert_eq!(ordering.group_at(0), only);
}

#[test]
fn test_group_named() {
    let kind = kind3();
    let (_, b, _) = abc(&kind);

    assert_eq!(kind.group_named(&"b".to_string()), Some(b));
    assert_eq!(kind.group_named(&"z".to_string()), None);
}

#[test]
fn test_group_out_of_range_is_none() {
    let kind = kind3();

    assert_eq!(kind.group(3), None);
    assert!(kind.group(2).is_some());
}
