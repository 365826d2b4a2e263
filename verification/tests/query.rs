//! Tests of the query builder: placeholder derivation, clause
//! joining, and its failure mode.

use awwsy::errors::AwwsyError;
use awwsy::query::build_query;
use awwsy::values::{AttributeValue, StructuredValue};

#[test]
fn two_field_predicate_builds_placeholders_and_condition() {
    let predicate = vec![
        ("gs1_hash".to_string(), StructuredValue::Text("user#".to_string())),
        ("gs1_sort".to_string(), StructuredValue::Text("abc".to_string())),
    ];
    let q = build_query(&predicate).unwrap();
    assert_eq!(
        q.names,
        vec![
            ("#gs1_hash".to_string(), "gs1_hash".to_string()),
            ("#gs1_sort".to_string(), "gs1_sort".to_string()),
        ]
    );
    assert_eq!(
        q.values,
        vec![
            (":gs1_hash".to_string(), AttributeValue::S("user#".to_string())),
            (":gs1_sort".to_string(), AttributeValue::S("abc".to_string())),
        ]
    );
    assert_eq!(q.condition, "#gs1_hash = :gs1_hash AND #gs1_sort = :gs1_sort");
}

#[test]
fn single_field_predicate_has_no_conjunction() {
    let predicate = vec![("pk".to_string(), StructuredValue::Text("user#1".to_string()))];
    let q = build_query(&predicate).unwrap();
    assert_eq!(q.condition, "#pk = :pk");
}

#[test]
fn empty_predicate_yields_empty_condition() {
    // the builder returns it; issuing such a query is the caller's
    // mistake, which the store itself rejects
    let predicate = vec![];
    let q = build_query(&predicate).unwrap();
    assert!(q.names.is_empty());
    assert!(q.values.is_empty());
    assert_eq!(q.condition, "");
}

#[test]
fn unconvertible_predicate_value_is_reported() {
    let predicate = vec![(
        "bad".to_string(),
        StructuredValue::Array(vec![StructuredValue::Bool(true)]),
    )];
    let r = build_query(&predicate);
    assert!(matches!(
        r,
        Err(AwwsyError::ConversionError(ref m)) if m == "unsupported array element"
    ));
}
