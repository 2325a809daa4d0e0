//! Deserializing ordering instances from sequences of label names.

use grouped_ordering::{Group, GroupedOrderable, OrderingError, OrderingInstance, OrderingKind, VecExt};

fn kind3() -> OrderingKind {
    OrderingKind::new(vec!["a".to_string(), "b".to_string(), "c".to_string()]).unwrap()
}

/// A number, mapped to the group at declaration position `value % 3`.
#[derive(Copy, Clone, Debug, PartialEq, Eq)]
struct Num(u32);

impl GroupedOrderable<OrderingInstance> for Num {
    fn map_to_grouped_ordering(&self) -> Group {
        Group {
            id: (self.0 % 3) as usize,
        }
    }
}

fn nums(values: &[u32]) -> Vec<Num> {
    values.iter().map(|v| Num(*v)).collect()
}

#[test]
fn test_deserialize() {
    let kind = kind3();

    let names: Vec<String> = serde_json::from_str(r#"["b", "a", "c"]"#).unwrap();
    let grouped_ordering = kind.ordering_from_names(&names).unwrap();

    let mut values = nums(&[0, 1, 2, 3, 4, 5]);
    values.sort_by_grouped_ordering(&grouped_ordering);
    assert_eq!(values, nums(&[1, 4, 0, 3, 2, 5]));
}

#[test]
fn test_deserialize_from_incomplete_list_fails() {
    let kind = kind3();

    let names: Vec<String> = serde_json::from_str(r#"["a", "b"]"#).unwrap();
    assert!(kind.ordering_from_names(&names).is_err());
}

#[test]
fn test_deserialize_from_list_with_duplicates_fails() {
    let kind = kind3();

    let names: Vec<String> = serde_json::from_str(r#"["a", "b", "b"]"#).unwrap();
    assert!(kind.ordering_from_names(&names).is_err());
}

#[test]
fn test_deserialize_unknown_name_error_kind() {
    let kind = kind3();

    let names = vec!["a".to_string(), "b".to_string(), "z".to_string()];
    assert_eq!(
        kind.ordering_from_names(&names).unwrap_err(),
        OrderingError::UnknownLabel
    );
}

#[test]
fn test_deserialize_duplicate_name_error_kind() {
    let kind = kind3();

    let names = vec!["a".to_string(), "b".to_string(), "b".to_string()];
    assert_eq!(
        kind.ordering_from_names(&names).unwrap_err(),
        OrderingError::DuplicateLabel
    );
}

#[test]
fn test_deserialize_wrong_length_error_kind() {
    let kind = kind3();

    let short = vec!["a".to_string(), "b".to_string()];
    assert_eq!(
        kind.ordering_from_names(&short).unwrap_err(),
        OrderingError::WrongCardinality
    );

    let long = vec![
        "a".to_string(),
        "b".to_string(),
        "c".to_string(),
        "a".to_string(),
    ];
    assert_eq!(
        kind.ordering_from_names(&long).unwrap_err(),
        OrderingError::WrongCardinality
    );
}

#[test]
fn test_deserialize_matches_explicit_construction() {
    let kind = kind3();
    let a = kind.group(0).unwrap();
    let b = kind.group(1).unwrap();
    let c = kind.group(2).unwrap();

    let names = vec!["b".to_string(), "a".to_string(), "c".to_string()];
    let deserialized = kind.ordering_from_names(&names).unwrap();
    let explicit = kind.ordering_from(vec![b, a, c]).unwrap();

    assert_eq!(deserialized.groups(), explicit.groups());
    for g in [a, b, c] {
        assert_eq!(deserialized.rank(g), explicit.rank(g));
    }
}
