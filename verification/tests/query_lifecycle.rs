//! Full query lifecycle: filtering by equality and by range operators,
//! schema validation, and aggregation counting.

use aevum_logic::engine::{count, find, get_field, validate};
use aevum_logic::value::Value;

fn s(text: &str) -> Value {
    Value::Str(text.to_string())
}

fn n(i: i64) -> Value {
    Value::of_int(i)
}

fn obj(entries: Vec<(&str, Value)>) -> Value {
    Value::Obj(entries.into_iter().map(|(k, v)| (k.to_string(), v)).collect())
}

fn empty_obj() -> Value {
    Value::Obj(Vec::new())
}

#[test]
fn test_ffi_full_query_lifecycle() {
    let data = vec![
        obj(vec![("id", n(1)), ("name", s("Ananda"))]),
        obj(vec![("id", n(2)), ("name", s("Aevum"))]),
    ];
    let query = obj(vec![("id", n(1))]);

    let results = find(&data, &query, &empty_obj(), &empty_obj(), 10, 0);
    assert!(
        results
            .iter()
            .any(|d| get_field(d, "name") == Some(&s("Ananda"))),
        "Query Logic Error: Expected 'Ananda' in result set."
    );
    assert!(
        !results
            .iter()
            .any(|d| get_field(d, "name") == Some(&s("Aevum"))),
        "Query Logic Error: Expected 'Aevum' to be filtered out."
    );
}

#[test]
fn test_ffi_schema_validation() {
    let doc = obj(vec![("username", s("admin")), ("role", s("root"))]);
    let schema = obj(vec![("type", s("object"))]);
    assert!(
        validate(&doc, &schema),
        "Validation Error: Document should match schema."
    );
}

#[test]
fn test_ffi_aggregation_count() {
    let data = vec![
        obj(vec![("x", n(10))]),
        obj(vec![("x", n(20))]),
        obj(vec![("x", n(10))]),
    ];
    let query = obj(vec![("x", n(10))]);
    assert_eq!(
        count(&data, &query),
        2,
        "Aggregation Error: Expected count of 2."
    );
}

#[test]
fn test_ffi_numeric_range_operators() {
    let data = vec![
        obj(vec![("id", n(1)), ("age", n(20))]),
        obj(vec![("id", n(2)), ("age", n(30))]),
    ];
    let query = obj(vec![("age", obj(vec![("$gt", n(25))]))]);

    let results = find(&data, &query, &empty_obj(), &empty_obj(), 10, 0);
    assert!(
        results.iter().any(|d| get_field(d, "id") == Some(&n(2))),
        "Logic Error: Result missing target document (ID 2)."
    );
    assert!(
        !results.iter().any(|d| get_field(d, "id") == Some(&n(1))),
        "Logic Error: Result contains filtered document (ID 1)."
    );
}

#[test]
fn test_ffi_exact_equality() {
    let data = vec![
        obj(vec![("name", s("Ananda"))]),
        obj(vec![("name", s("Aevum"))]),
    ];
    let query = obj(vec![("name", s("Ananda"))]);

    let results = find(&data, &query, &empty_obj(), &empty_obj(), 10, 0);
    assert!(
        results
            .iter()
            .any(|d| get_field(d, "name") == Some(&s("Ananda"))),
        "Logic Error: Expected 'Ananda' in result."
    );
    assert!(
        !results
            .iter()
            .any(|d| get_field(d, "name") == Some(&s("Aevum"))),
        "Logic Error: Expected 'Aevum' to be filtered out."
    );
}
