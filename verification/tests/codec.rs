//! Tests of the value converter and the record codec: number
//! encoding, array classification, and the round trip.

use awwsy::codec::{decode_item, encode_item};
use awwsy::convert::{from_attribute, to_attribute};
use awwsy::errors::AwwsyError;
use awwsy::numbers::{parse_decimal, render_decimal};
use awwsy::values::{AttributeValue, Decimal, StructuredValue};

fn num(neg: bool, mantissa: u64, scale: usize) -> StructuredValue {
    StructuredValue::Number(Decimal { neg, mantissa, scale })
}

fn text(s: &str) -> StructuredValue {
    StructuredValue::Text(s.to_string())
}

#[test]
fn number_encoding_three_point_one_four() {
    // 3.14 crosses the wire as the decimal string "3.14" and comes back
    let v = num(false, 314, 2);
    let a = to_attribute(&v).unwrap();
    assert_eq!(a, AttributeValue::N("3.14".to_string()));
    let back = from_attribute(&a).unwrap();
    assert_eq!(back, num(false, 314, 2));
}

#[test]
fn number_rendering_cases() {
    assert_eq!(render_decimal(&Decimal { neg: false, mantissa: 0, scale: 0 }), "0");
    assert_eq!(render_decimal(&Decimal { neg: false, mantissa: 42, scale: 0 }), "42");
    assert_eq!(render_decimal(&Decimal { neg: true, mantissa: 314, scale: 2 }), "-3.14");
    assert_eq!(render_decimal(&Decimal { neg: false, mantissa: 5, scale: 3 }), "0.005");
    assert_eq!(render_decimal(&Decimal { neg: false, mantissa: 1200, scale: 2 }), "12.00");
    assert_eq!(
        render_decimal(&Decimal { neg: false, mantissa: u64::MAX, scale: 0 }),
        "18446744073709551615"
    );
}

#[test]
fn number_parsing_cases() {
    assert_eq!(parse_decimal("0").unwrap(), Decimal { neg: false, mantissa: 0, scale: 0 });
    assert_eq!(parse_decimal("-3.14").unwrap(), Decimal { neg: true, mantissa: 314, scale: 2 });
    assert_eq!(parse_decimal("0.005").unwrap(), Decimal { neg: false, mantissa: 5, scale: 3 });
    // the parser tolerates leading zeros
    assert_eq!(parse_decimal("007").unwrap(), Decimal { neg: false, mantissa: 7, scale: 0 });
    assert_eq!(
        parse_decimal("18446744073709551615").unwrap(),
        Decimal { neg: false, mantissa: u64::MAX, scale: 0 }
    );
}

#[test]
fn number_parsing_rejects_malformed_strings() {
    for bad in ["", "-", ".", "3.", ".5", "1.2.3", "a", "1a", "- 1", "+1", "1e3",
        "18446744073709551616"] {
        let r = parse_decimal(bad);
        assert!(
            matches!(r, Err(AwwsyError::ConversionError(ref m)) if m == "unparsable number"),
            "expected a conversion error for {:?}",
            bad
        );
    }
}

#[test]
fn array_classification_number_majority() {
    // [1, 2, "x"]: two numbers against one string, so a NumberSet wins
    // and the string is dropped; documented lossy behaviour
    let v = StructuredValue::Array(vec![num(false, 1, 0), num(false, 2, 0), text("x")]);
    let a = to_attribute(&v).unwrap();
    assert_eq!(a, AttributeValue::Ns(vec!["1".to_string(), "2".to_string()]));
}

#[test]
fn array_classification_string_majority_or_tie() {
    // a tie goes to the StringSet and the numbers are dropped
    let v = StructuredValue::Array(vec![num(false, 1, 0), text("x")]);
    let a = to_attribute(&v).unwrap();
    assert_eq!(a, AttributeValue::Ss(vec!["x".to_string()]));
    // an empty array is an empty StringSet
    let e = StructuredValue::Array(vec![]);
    assert_eq!(to_attribute(&e).unwrap(), AttributeValue::Ss(vec![]));
}

#[test]
fn array_with_unsupported_element_fails_fast() {
    for bad in [
        StructuredValue::Array(vec![StructuredValue::Bool(true)]),
        StructuredValue::Array(vec![StructuredValue::Null]),
        StructuredValue::Array(vec![StructuredValue::Array(vec![])]),
        StructuredValue::Array(vec![StructuredValue::Object(vec![])]),
    ] {
        let r = to_attribute(&bad);
        assert!(matches!(
            r,
            Err(AwwsyError::ConversionError(ref m)) if m == "unsupported array element"
        ));
    }
}

#[test]
fn scalar_conversions() {
    assert_eq!(to_attribute(&StructuredValue::Null).unwrap(), AttributeValue::Null(true));
    assert_eq!(
        to_attribute(&StructuredValue::Bool(false)).unwrap(),
        AttributeValue::Bool(false)
    );
    assert_eq!(to_attribute(&text("hi")).unwrap(), AttributeValue::S("hi".to_string()));
    assert_eq!(from_attribute(&AttributeValue::Null(false)).unwrap(), StructuredValue::Null);
    assert_eq!(
        from_attribute(&AttributeValue::Bool(true)).unwrap(),
        StructuredValue::Bool(true)
    );
}

#[test]
fn from_attribute_rejects_unparsable_numbers() {
    let r = from_attribute(&AttributeValue::N("abc".to_string()));
    assert!(matches!(r, Err(AwwsyError::ConversionError(ref m)) if m == "unparsable number"));
    let r2 = from_attribute(&AttributeValue::Ns(vec!["1".to_string(), "x".to_string()]));
    assert!(matches!(r2, Err(AwwsyError::ConversionError(ref m)) if m == "unparsable number"));
}

#[test]
fn from_attribute_rebuilds_sets_as_arrays() {
    let ss = AttributeValue::Ss(vec!["a".to_string(), "b".to_string()]);
    assert_eq!(
        from_attribute(&ss).unwrap(),
        StructuredValue::Array(vec![text("a"), text("b")])
    );
    let ns = AttributeValue::Ns(vec!["1".to_string(), "2.5".to_string()]);
    assert_eq!(
        from_attribute(&ns).unwrap(),
        StructuredValue::Array(vec![num(false, 1, 0), num(false, 25, 1)])
    );
}

#[test]
fn encode_rejects_non_objects() {
    let r = encode_item(&StructuredValue::Bool(true));
    assert!(matches!(
        r,
        Err(AwwsyError::SchemaError(ref m)) if m == "record did not serialize to an object"
    ));
}

#[test]
fn round_trip_object_with_every_supported_field_shape() {
    // a record whose fields are a bool, a number, a string, a nested
    // object, a number array and a string array decodes back unchanged
    let v = StructuredValue::Object(vec![
        ("flag".to_string(), StructuredValue::Bool(true)),
        ("price".to_string(), num(false, 995, 2)),
        ("name".to_string(), text("widget")),
        (
            "nested".to_string(),
            StructuredValue::Object(vec![
                ("inner".to_string(), text("deep")),
                ("count".to_string(), num(false, 3, 0)),
            ]),
        ),
        (
            "sizes".to_string(),
            StructuredValue::Array(vec![num(false, 1, 0), num(true, 2, 0), num(false, 35, 1)]),
        ),
        (
            "labels".to_string(),
            StructuredValue::Array(vec![text("a"), text("b")]),
        ),
    ]);
    let encoded = encode_item(&v).unwrap();
    let decoded = decode_item(&encoded).unwrap();
    assert_eq!(decoded, v);
}

#[test]
fn nested_object_becomes_a_map_attribute() {
    let v = StructuredValue::Object(vec![(
        "nested".to_string(),
        StructuredValue::Object(vec![("k".to_string(), num(false, 7, 0))]),
    )]);
    let encoded = encode_item(&v).unwrap();
    assert_eq!(
        encoded,
        vec![(
            "nested".to_string(),
            AttributeValue::M(vec![("k".to_string(), AttributeValue::N("7".to_string()))])
        )]
    );
}
