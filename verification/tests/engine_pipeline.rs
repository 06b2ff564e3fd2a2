//! Pipeline behaviour: projection semantics, sort determinism, and schema
//! integrity enforcement.

use aevum_logic::engine::{find, get_field, validate};
use aevum_logic::value::Value;

fn s(text: &str) -> Value {
    Value::Str(text.to_string())
}

fn n(i: i64) -> Value {
    Value::of_int(i)
}

fn obj(entries: Vec<(&str, Value)>) -> Value {
    Value::Obj(entries.into_iter().map(|(k, v)| (k.to_string(), v)).collect())
}

fn empty_obj() -> Value {
    Value::Obj(Vec::new())
}

fn field<'a>(doc: &'a Value, key: &str) -> Option<&'a Value> {
    get_field(doc, key)
}

#[test]
fn test_pipeline_projection_semantics() {
    let data = vec![obj(vec![
        ("_id", s("row1")),
        ("public", s("visible")),
        ("secret", s("hidden")),
    ])];
    let projection = obj(vec![("public", n(1))]);

    let results = find(&data, &empty_obj(), &empty_obj(), &projection, 10, 0);
    assert_eq!(results.len(), 1);
    let row = &results[0];

    assert_eq!(
        field(row, "public"),
        Some(&s("visible")),
        "Projection Error: Missing requested field."
    );
    assert_eq!(
        field(row, "_id"),
        Some(&s("row1")),
        "Projection Error: '_id' should be implicit."
    );
    assert_eq!(
        field(row, "secret"),
        None,
        "Security Error: 'secret' field leaked."
    );

    let suppressing = obj(vec![("public", n(1)), ("_id", n(0))]);
    let results = find(&data, &empty_obj(), &empty_obj(), &suppressing, 10, 0);
    assert_eq!(results.len(), 1);
    assert_eq!(
        field(&results[0], "_id"),
        None,
        "Projection Error: '_id' should be suppressed."
    );
}

#[test]
fn test_pipeline_sorting_determinism() {
    let data = vec![
        obj(vec![("score", n(75))]),
        obj(vec![("score", n(50))]),
        obj(vec![("score", n(100))]),
    ];
    let sort = obj(vec![("score", n(1))]);

    let results = find(&data, &empty_obj(), &sort, &empty_obj(), 10, 0);
    assert_eq!(results.len(), 3);

    let pos_50 = results
        .iter()
        .position(|d| field(d, "score") == Some(&n(50)))
        .expect("Missing value 50");
    let pos_75 = results
        .iter()
        .position(|d| field(d, "score") == Some(&n(75)))
        .expect("Missing value 75");
    let pos_100 = results
        .iter()
        .position(|d| field(d, "score") == Some(&n(100)))
        .expect("Missing value 100");

    assert!(pos_50 < pos_75, "Sorting Error: 50 should come before 75");
    assert!(pos_75 < pos_100, "Sorting Error: 75 should come before 100");
}

#[test]
fn test_pipeline_integrity_enforcement() {
    let schema = obj(vec![("required", Value::Arr(vec![s("pid")]))]);

    let valid_doc = obj(vec![("pid", n(101)), ("name", s("Engine"))]);
    assert!(
        validate(&valid_doc, &schema),
        "Validation Error: Valid document was rejected."
    );

    let invalid_doc = obj(vec![("name", s("Orphan Component"))]);
    assert!(
        !validate(&invalid_doc, &schema),
        "Integrity Error: Engine failed to catch missing required field."
    );
}
