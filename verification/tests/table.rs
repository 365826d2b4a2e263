//! Tests of the table operations: name derivation, save stamping,
//! key lookups, queries and batch inserts.

use awwsy::dynamodb::{
    batch_insert_items, batch_insert_plan, decode_get_item, get_plan, query_plan, save_item,
    save_plan, table_name_from, Table,
};
use awwsy::codec::{decode_item, encode_item};
use awwsy::errors::AwwsyError;
use awwsy::records::UserProfile;
use awwsy::values::{AttributeMap, AttributeValue, StructuredValue};

fn lookup<'a>(map: &'a AttributeMap, key: &str) -> Option<&'a AttributeValue> {
    map.iter().find(|(k, _)| k == key).map(|(_, v)| v)
}

fn sample_profile() -> UserProfile {
    UserProfile {
        pk: "user#1".to_string(),
        sk: "profile".to_string(),
        active: true,
        age: 26,
        scores: vec![1, 2, 3],
        tags: vec!["tweak_one".to_string(), "tweak_two".to_string()],
        created_at: "2001-01-01T00:00:00+00:00".to_string(),
        updated_at: "2001-01-01T00:00:00+00:00".to_string(),
    }
}

#[test]
fn table_name_follows_the_literal_rule() {
    // snake case, then append an `s` unless one is already there
    assert_eq!(table_name_from("UserProfile"), "user_profiles");
    assert_eq!(table_name_from("Status"), "status");
    assert_eq!(table_name_from("app::models::UserProfile"), "user_profiles");
    assert_eq!(table_name_from("Order"), "orders");
    assert_eq!(UserProfile::table_name(), "user_profiles");
}

#[test]
fn save_always_overwrites_both_timestamps() {
    // the always-reset created_at is deliberate, preserved behaviour:
    // a second save never keeps the first call's creation stamp
    let profile = sample_profile();
    let value = profile.to_value();
    let first = save_item(&value, "2020-05-05T12:00:00+00:00").unwrap();
    assert_eq!(
        lookup(&first, "created_at"),
        Some(&AttributeValue::S("2020-05-05T12:00:00+00:00".to_string()))
    );
    let second = save_item(&value, "2021-06-06T12:00:00+00:00").unwrap();
    assert_eq!(
        lookup(&second, "created_at"),
        Some(&AttributeValue::S("2021-06-06T12:00:00+00:00".to_string()))
    );
    assert_eq!(
        lookup(&second, "updated_at"),
        Some(&AttributeValue::S("2021-06-06T12:00:00+00:00".to_string()))
    );
    // the stamp replaces the record's own timestamp field in place
    assert_eq!(first.len(), 8);
}

#[test]
fn save_plan_targets_the_table_and_stamps_consistently() {
    let profile = sample_profile();
    let value = profile.to_value();
    let plan = save_plan(&value, "user_profiles").unwrap();
    assert_eq!(plan.table, "user_profiles");
    assert_eq!(lookup(&plan.item, "created_at"), lookup(&plan.item, "updated_at"));
}

#[test]
fn decode_get_item_maps_no_item_to_not_found() {
    // a miss is a typed error, never a decode of an empty map
    let r = decode_get_item(None);
    assert!(matches!(r, Err(AwwsyError::NotFound)));
    let r2 = UserProfile::from_get_item(None);
    assert!(matches!(r2, Err(AwwsyError::NotFound)));
}

#[test]
fn decode_get_item_decodes_a_present_item() {
    let value = StructuredValue::Object(vec![(
        "pk".to_string(),
        StructuredValue::Text("user#9".to_string()),
    )]);
    let item = encode_item(&value).unwrap();
    let back = decode_get_item(Some(item)).unwrap();
    assert_eq!(back, value);
}

#[test]
fn get_plan_converts_the_complete_key() {
    let predicate = vec![
        ("pk".to_string(), StructuredValue::Text("user#1".to_string())),
        ("sk".to_string(), StructuredValue::Text("profile".to_string())),
    ];
    let plan = get_plan(&predicate, Some("pk, age".to_string()), "user_profiles").unwrap();
    assert_eq!(plan.table, "user_profiles");
    assert_eq!(plan.projection, Some("pk, age".to_string()));
    assert_eq!(
        plan.key,
        vec![
            ("pk".to_string(), AttributeValue::S("user#1".to_string())),
            ("sk".to_string(), AttributeValue::S("profile".to_string())),
        ]
    );
}

#[test]
fn query_plan_binds_index_and_condition() {
    let predicate = vec![
        ("gs1_hash".to_string(), StructuredValue::Text("user#".to_string())),
        ("gs1_sort".to_string(), StructuredValue::Text("abc".to_string())),
    ];
    let plan = query_plan(&predicate, "gs1".to_string(), "user_profiles").unwrap();
    assert_eq!(plan.table, "user_profiles");
    assert_eq!(plan.index, "gs1");
    assert_eq!(
        plan.expression.condition,
        "#gs1_hash = :gs1_hash AND #gs1_sort = :gs1_sort"
    );
    let typed = UserProfile::query_plan(&predicate, "gs1".to_string()).unwrap();
    assert_eq!(typed.table, "user_profiles");
}

#[test]
fn batch_insert_shares_one_timestamp() {
    let a = sample_profile();
    let mut b = sample_profile();
    b.pk = "user#2".to_string();
    let values = vec![a.to_value(), b.to_value()];
    let items = batch_insert_items(&values, "2022-07-07T00:00:00+00:00").unwrap();
    assert_eq!(items.len(), 2);
    for item in &items {
        assert_eq!(
            lookup(item, "created_at"),
            Some(&AttributeValue::S("2022-07-07T00:00:00+00:00".to_string()))
        );
    }
    // with the real clock, every record of one batch still shares one stamp
    let plan = batch_insert_plan(&values, "user_profiles").unwrap();
    assert_eq!(plan.table, "user_profiles");
    assert_eq!(plan.items.len(), 2);
    assert_eq!(
        lookup(&plan.items[0], "created_at"),
        lookup(&plan.items[1], "created_at")
    );
}

#[test]
fn batch_insert_rejects_a_non_object_record() {
    let values = vec![StructuredValue::Bool(true)];
    let r = batch_insert_items(&values, "2022-07-07T00:00:00+00:00");
    assert!(matches!(
        r,
        Err(AwwsyError::SchemaError(ref m)) if m == "record did not serialize to an object"
    ));
}

#[test]
fn profile_round_trips_through_the_codec() {
    let profile = sample_profile();
    let value = profile.to_value();
    let encoded = encode_item(&value).unwrap();
    let decoded = decode_item(&encoded).unwrap();
    let back = UserProfile::from_value(&decoded).unwrap();
    assert_eq!(back, profile);
}

#[test]
fn profile_saved_and_fetched_carries_the_new_stamps() {
    let profile = sample_profile();
    let item = save_item(&profile.to_value(), "2024-01-01T00:00:00+00:00").unwrap();
    let fetched = UserProfile::from_get_item(Some(item)).unwrap();
    assert_eq!(fetched.created_at, "2024-01-01T00:00:00+00:00");
    assert_eq!(fetched.updated_at, "2024-01-01T00:00:00+00:00");
    assert_eq!(fetched.pk, profile.pk);
    assert_eq!(fetched.scores, profile.scores);
    assert_eq!(fetched.tags, profile.tags);
}

#[test]
fn from_value_accepts_any_field_order() {
    // a fetched item's attribute order is arbitrary; decoding goes by
    // name, so a permuted but equal-as-map object decodes identically
    let profile = sample_profile();
    let mut entries = match profile.to_value() {
        StructuredValue::Object(entries) => entries,
        _ => unreachable!(),
    };
    entries.reverse();
    let permuted = StructuredValue::Object(entries);
    let back = UserProfile::from_value(&permuted).unwrap();
    assert_eq!(back, profile);
}

#[test]
fn from_value_ignores_unknown_fields() {
    let profile = sample_profile();
    let mut entries = match profile.to_value() {
        StructuredValue::Object(entries) => entries,
        _ => unreachable!(),
    };
    entries.push(("extra".to_string(), StructuredValue::Bool(true)));
    let widened = StructuredValue::Object(entries);
    let back = UserProfile::from_value(&widened).unwrap();
    assert_eq!(back, profile);
}

#[test]
fn from_value_takes_the_first_entry_of_a_repeated_name() {
    let profile = sample_profile();
    let mut entries = match profile.to_value() {
        StructuredValue::Object(entries) => entries,
        _ => unreachable!(),
    };
    entries.push(("pk".to_string(), StructuredValue::Text("user#shadowed".to_string())));
    let doubled = StructuredValue::Object(entries);
    let back = UserProfile::from_value(&doubled).unwrap();
    assert_eq!(back.pk, "user#1");
}

#[test]
fn from_value_rejects_a_missing_field() {
    let profile = sample_profile();
    let mut entries = match profile.to_value() {
        StructuredValue::Object(entries) => entries,
        _ => unreachable!(),
    };
    entries.retain(|(k, _)| k != "sk");
    let narrowed = StructuredValue::Object(entries);
    let r = UserProfile::from_value(&narrowed);
    assert!(matches!(r, Err(AwwsyError::SchemaError(_))));
}

#[test]
fn from_value_rejects_mistyped_fields() {
    let mut profile_value = sample_profile().to_value();
    // break the age field: a string where a number belongs
    if let StructuredValue::Object(ref mut entries) = profile_value {
        entries[3].1 = StructuredValue::Text("not a number".to_string());
    } else {
        unreachable!();
    }
    let r = UserProfile::from_value(&profile_value);
    assert!(matches!(r, Err(AwwsyError::SchemaError(_))));
    let r2 = UserProfile::from_value(&StructuredValue::Bool(true));
    assert!(matches!(r2, Err(AwwsyError::SchemaError(_))));
}
