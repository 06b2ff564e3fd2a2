//! Concrete scenarios for each pipeline stage and each proved law: numeric
//! unification, projection with implicit `_id`, ordering, counting, update
//! immutability, validation, pagination, and filter idempotence.

use aevum_logic::engine::{
    apply_projection, compare_values, count, delete, find, get_field, matches_query, update,
    validate,
};
use aevum_logic::operators::evaluate;
use aevum_logic::text::Cmp;
use aevum_logic::value::{Value, NUM_SCALE};

fn s(text: &str) -> Value {
    Value::Str(text.to_string())
}

fn n(i: i64) -> Value {
    Value::of_int(i)
}

fn num_from_f64(x: f64) -> Value {
    Value::Num((x * 1_000_000.0f64) as i128)
}

fn obj(entries: Vec<(&str, Value)>) -> Value {
    Value::Obj(entries.into_iter().map(|(k, v)| (k.to_string(), v)).collect())
}

fn empty_obj() -> Value {
    Value::Obj(Vec::new())
}

#[test]
fn numeric_unification() {
    // An integer and its fractional reading are one value.
    assert_eq!(n(10), num_from_f64(10.0));
    assert!(evaluate("$eq", &n(10), &num_from_f64(10.0)));
    assert!(evaluate("$gt", &n(10), &n(5)));
    assert!(evaluate("$gte", &num_from_f64(2.5), &num_from_f64(2.5)));
    assert!(evaluate("$lt", &num_from_f64(2.25), &num_from_f64(2.5)));
}

#[test]
fn unknown_operator_never_matches() {
    assert!(!evaluate("$in", &n(1), &n(1)));
    assert!(!evaluate("", &n(1), &n(1)));
    assert!(evaluate("$ne", &n(1), &n(2)));
}

#[test]
fn ordering_operators_need_numbers() {
    assert!(!evaluate("$gt", &s("b"), &s("a")));
    assert!(!evaluate("$lt", &n(1), &s("2")));
    assert!(!evaluate("$gte", &Value::Null, &n(0)));
}

#[test]
fn structural_equality_ignores_object_key_order() {
    let a = obj(vec![("x", n(1)), ("y", n(2))]);
    let b = obj(vec![("y", n(2)), ("x", n(1))]);
    assert!(evaluate("$eq", &a, &b));
    assert!(!evaluate("$ne", &a, &b));
    // Sequences stay order-sensitive.
    let p = Value::Arr(vec![n(1), n(2)]);
    let q = Value::Arr(vec![n(2), n(1)]);
    assert!(!evaluate("$eq", &p, &q));
}

#[test]
fn comparator_orders_and_falls_through() {
    assert_eq!(compare_values(&s("Aevum"), &s("Ananda")), Cmp::Less);
    assert_eq!(compare_values(&n(5), &n(10)), Cmp::Less);
    assert_eq!(compare_values(&Value::Bool(false), &Value::Bool(true)), Cmp::Less);
    // Mixed types and structured values are left equal.
    assert_eq!(compare_values(&n(5), &s("5")), Cmp::Equal);
    assert_eq!(compare_values(&Value::Null, &n(0)), Cmp::Equal);
}

#[test]
fn scenario_projection_keeps_public_and_id() {
    let data = vec![obj(vec![
        ("_id", s("1")),
        ("public", s("x")),
        ("secret", s("y")),
    ])];
    let projection = obj(vec![("public", n(1))]);
    let results = find(&data, &empty_obj(), &empty_obj(), &projection, 10, 0);
    let expected = vec![obj(vec![("public", s("x")), ("_id", s("1"))])];
    assert_eq!(results, expected);
}

#[test]
fn scenario_sort_ascending_by_score() {
    let data = vec![
        obj(vec![("score", n(50))]),
        obj(vec![("score", n(100))]),
        obj(vec![("score", n(75))]),
    ];
    let sort = obj(vec![("score", n(1))]);
    let results = find(&data, &empty_obj(), &sort, &empty_obj(), 0, 0);
    let expected = vec![
        obj(vec![("score", n(50))]),
        obj(vec![("score", n(75))]),
        obj(vec![("score", n(100))]),
    ];
    assert_eq!(results, expected);
}

#[test]
fn sort_descending_and_tie_break() {
    let data = vec![
        obj(vec![("a", n(1)), ("b", n(2))]),
        obj(vec![("a", n(2)), ("b", n(1))]),
        obj(vec![("a", n(1)), ("b", n(1))]),
    ];
    let sort = obj(vec![("a", n(1)), ("b", n(-1))]);
    let results = find(&data, &empty_obj(), &sort, &empty_obj(), 0, 0);
    let expected = vec![
        obj(vec![("a", n(1)), ("b", n(2))]),
        obj(vec![("a", n(1)), ("b", n(1))]),
        obj(vec![("a", n(2)), ("b", n(1))]),
    ];
    assert_eq!(results, expected);
}

#[test]
fn sort_is_stable_on_duplicate_keys() {
    let data = vec![
        obj(vec![("k", n(1)), ("tag", s("first"))]),
        obj(vec![("k", n(0)), ("tag", s("zero"))]),
        obj(vec![("k", n(1)), ("tag", s("second"))]),
        obj(vec![("k", n(1)), ("tag", s("third"))]),
    ];
    let sort = obj(vec![("k", n(1))]);
    let results = find(&data, &empty_obj(), &sort, &empty_obj(), 0, 0);
    let tags: Vec<Option<&Value>> = results.iter().map(|d| get_field(d, "tag")).collect();
    assert_eq!(
        tags,
        vec![
            Some(&s("zero")),
            Some(&s("first")),
            Some(&s("second")),
            Some(&s("third")),
        ]
    );
}

#[test]
fn scenario_count_matching() {
    let data = vec![
        obj(vec![("x", n(10))]),
        obj(vec![("x", n(20))]),
        obj(vec![("x", n(10))]),
    ];
    assert_eq!(count(&data, &obj(vec![("x", n(10))])), 2);
}

#[test]
fn scenario_update_keeps_id() {
    let data = vec![obj(vec![("_id", s("1")), ("active", Value::Bool(false))])];
    let query = obj(vec![("_id", s("1"))]);
    let patch = obj(vec![("_id", s("hack")), ("active", Value::Bool(true))]);
    let results = update(&data, &query, &patch);
    let expected = vec![obj(vec![("_id", s("1")), ("active", Value::Bool(true))])];
    assert_eq!(results, expected);
}

#[test]
fn update_merges_new_fields_and_skips_unmatched() {
    let data = vec![
        obj(vec![("_id", s("1")), ("x", n(1))]),
        obj(vec![("_id", s("2")), ("x", n(2))]),
    ];
    let query = obj(vec![("_id", s("1"))]);
    let patch = obj(vec![("x", n(9)), ("fresh", s("yes"))]);
    let results = update(&data, &query, &patch);
    let expected = vec![
        obj(vec![("_id", s("1")), ("x", n(9)), ("fresh", s("yes"))]),
        obj(vec![("_id", s("2")), ("x", n(2))]),
    ];
    assert_eq!(results, expected);
}

#[test]
fn scenario_validate_missing_required() {
    let doc = obj(vec![("name", s("Orphan"))]);
    let schema = obj(vec![("required", Value::Arr(vec![s("pid")]))]);
    assert!(!validate(&doc, &schema));
}

#[test]
fn validate_type_range_and_enum() {
    let schema = obj(vec![(
        "fields",
        obj(vec![
            ("age", obj(vec![("type", s("number")), ("min", n(0)), ("max", n(130))])),
            ("role", obj(vec![("enum", Value::Arr(vec![s("user"), s("admin")]))])),
        ]),
    )]);
    assert!(validate(&obj(vec![("age", n(30)), ("role", s("admin"))]), &schema));
    assert!(!validate(&obj(vec![("age", s("old"))]), &schema));
    assert!(!validate(&obj(vec![("age", n(-1))]), &schema));
    assert!(!validate(&obj(vec![("age", n(131))]), &schema));
    assert!(!validate(&obj(vec![("role", s("root"))]), &schema));
    // Unknown type names are permissive; absent fields are not checked.
    let loose = obj(vec![("fields", obj(vec![("age", obj(vec![("type", s("uuid"))]))]))]);
    assert!(validate(&obj(vec![("age", s("anything"))]), &loose));
    assert!(validate(&empty_obj(), &schema));
}

#[test]
fn validate_fails_open_on_non_objects() {
    assert!(validate(&Value::Null, &empty_obj()));
    assert!(validate(&empty_obj(), &Value::Arr(vec![])));
    assert!(validate(&n(3), &n(4)));
}

#[test]
fn pagination_bound_and_limit() {
    let data = vec![
        obj(vec![("i", n(0))]),
        obj(vec![("i", n(1))]),
        obj(vec![("i", n(2))]),
    ];
    // A skip at or past the collection size yields nothing.
    assert_eq!(find(&data, &empty_obj(), &empty_obj(), &empty_obj(), 0, 3), vec![]);
    assert_eq!(find(&data, &empty_obj(), &empty_obj(), &empty_obj(), 0, 9), vec![]);
    // Skip then limit.
    let page = find(&data, &empty_obj(), &empty_obj(), &empty_obj(), 1, 1);
    assert_eq!(page, vec![obj(vec![("i", n(1))])]);
    // A limit of zero means unbounded.
    let all = find(&data, &empty_obj(), &empty_obj(), &empty_obj(), 0, 0);
    assert_eq!(all.len(), 3);
    // A limit past the end is harmless.
    let tail = find(&data, &empty_obj(), &empty_obj(), &empty_obj(), 100, 2);
    assert_eq!(tail, vec![obj(vec![("i", n(2))])]);
}

#[test]
fn filter_is_idempotent_on_concrete_data() {
    let data = vec![
        obj(vec![("x", n(10))]),
        obj(vec![("x", n(20))]),
        obj(vec![("x", n(10))]),
    ];
    let query = obj(vec![("x", n(10))]);
    let once = find(&data, &query, &empty_obj(), &empty_obj(), 0, 0);
    let twice = find(&once, &query, &empty_obj(), &empty_obj(), 0, 0);
    assert_eq!(once, twice);
}

#[test]
fn projection_identity_and_non_objects() {
    let doc = obj(vec![("a", n(1)), ("b", s("two"))]);
    assert_eq!(apply_projection(&doc, &empty_obj()), doc);
    // Non-object inputs pass through unchanged.
    assert_eq!(apply_projection(&n(7), &obj(vec![("a", n(1))])), n(7));
    assert_eq!(apply_projection(&doc, &n(1)), doc);
}

#[test]
fn projection_explicit_id_and_absent_fields() {
    let doc = obj(vec![("_id", s("k")), ("a", n(1))]);
    // Asking for an absent field silently skips it.
    let p = obj(vec![("ghost", n(1))]);
    assert_eq!(apply_projection(&doc, &p), obj(vec![("_id", s("k"))]));
    // An explicit truthy `_id` keeps it without duplication.
    let p2 = obj(vec![("_id", Value::Bool(true)), ("a", n(1))]);
    assert_eq!(apply_projection(&doc, &p2), obj(vec![("_id", s("k")), ("a", n(1))]));
}

#[test]
fn matcher_semantics() {
    let doc = obj(vec![("a", n(5)), ("b", s("x"))]);
    // Empty filter matches everything, whatever the document.
    assert!(matches_query(&doc, &empty_obj()));
    assert!(matches_query(&Value::Null, &empty_obj()));
    // Absent fields read as null.
    assert!(matches_query(&doc, &obj(vec![("missing", Value::Null)])));
    // Implicit AND across entries.
    let both = obj(vec![("a", obj(vec![("$gte", n(5)), ("$lte", n(5))])), ("b", s("x"))]);
    assert!(matches_query(&doc, &both));
    let contradictory = obj(vec![("a", obj(vec![("$gt", n(4)), ("$lt", n(5))]))]);
    assert!(!matches_query(&doc, &contradictory));
}

#[test]
fn delete_removes_exactly_matches() {
    let data = vec![
        obj(vec![("x", n(10))]),
        obj(vec![("x", n(20))]),
        obj(vec![("x", n(10))]),
    ];
    let survivors = delete(&data, &obj(vec![("x", n(10))]));
    assert_eq!(survivors, vec![obj(vec![("x", n(20))])]);
    // A filter nothing matches deletes nothing.
    let untouched = delete(&data, &obj(vec![("x", n(99))]));
    assert_eq!(untouched, data);
}

#[test]
fn fixed_point_scale_is_millionths() {
    assert_eq!(n(1), Value::Num(NUM_SCALE));
    assert_eq!(num_from_f64(0.5), Value::Num(500_000));
}
