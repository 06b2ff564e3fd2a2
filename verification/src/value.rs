//! The document-tree value model.
//!
//! A `Value` is the single representation for documents, filter specs,
//! sort specs, projection specs, schemas and patches: a recursive union of
//! null, boolean, number, string, ordered sequence, and string-keyed mapping
//! (insertion order preserved, keys unique).
//!
//! Numbers are held in fixed-point form: a `Num` carries its magnitude in
//! millionths, so the integer `10` and the fractional reading `10.0` are the
//! same value (`10_000_000`). The boundary that parses textual input converts
//! every numeric literal to this form; the engine itself only compares
//! numbers, never computes with them.
//!
//! `SpecValue` mirrors `Value` at the specification level; `view_of` relates
//! the two. All contracts of the engine are stated over `SpecValue`.

use vstd::prelude::*;

verus! {

broadcast use vstd::std_specs::vec::group_vec_axioms;

/// One unit, in the fixed-point number encoding: a `Num` holds millionths.
pub const NUM_SCALE: i128 = 1000000;

/// A document-tree value.
#[derive(PartialEq, Eq, Debug)]
pub enum Value {
    Null,
    Bool(bool),
    Num(i128),
    Str(String),
    Arr(Vec<Value>),
    Obj(Vec<(String, Value)>),
}

/// The mathematical model of a document-tree value.
pub ghost enum SpecValue {
    Null,
    Bool(bool),
    Num(int),
    Str(Seq<char>),
    Arr(Seq<SpecValue>),
    Obj(Seq<(Seq<char>, SpecValue)>),
}

/// The model of a value.
pub open spec fn view_of(v: Value) -> SpecValue
    decreases v,
{
    match v {
        Value::Null => SpecValue::Null,
        Value::Bool(b) => SpecValue::Bool(b),
        Value::Num(n) => SpecValue::Num(n as int),
        Value::Str(s) => SpecValue::Str(s@),
        Value::Arr(items) => SpecValue::Arr(views_of(items@)),
        Value::Obj(es) => SpecValue::Obj(entry_views_of(es@)),
    }
}

/// The models of a sequence of values.
pub open spec fn views_of(items: Seq<Value>) -> Seq<SpecValue>
    decreases items,
{
    Seq::new(
        items.len(),
        |i: int|
            if 0 <= i < items.len() {
                view_of(items[i])
            } else {
                SpecValue::Null
            },
    )
}

/// The models of an object's entries.
pub open spec fn entry_views_of(es: Seq<(String, Value)>) -> Seq<(Seq<char>, SpecValue)>
    decreases es,
{
    Seq::new(
        es.len(),
        |i: int|
            if 0 <= i < es.len() {
                (es[i].0@, view_of(es[i].1))
            } else {
                (Seq::empty(), SpecValue::Null)
            },
    )
}

impl Value {
    /// The whole number `n`, in the fixed-point encoding.
    pub fn of_int(n: i64) -> (v: Value)
        ensures
            view_of(v) == SpecValue::Num(n as int * NUM_SCALE),
    {
        Value::Num((n as i128) * NUM_SCALE)
    }
}

/// A value and its model are the same kind of node.
pub proof fn lemma_view_shape(v: Value)
    ensures
        (view_of(v) is Null) == (v is Null),
        (view_of(v) is Bool) == (v is Bool),
        (view_of(v) is Num) == (v is Num),
        (view_of(v) is Str) == (v is Str),
        (view_of(v) is Arr) == (v is Arr),
        (view_of(v) is Obj) == (v is Obj),
{
    match v {
        Value::Null => {},
        Value::Bool(_b) => {},
        Value::Num(_n) => {},
        Value::Str(_s) => {},
        Value::Arr(_items) => {},
        Value::Obj(_es) => {},
    }
}

// ----------------------------------------------------------------------
// Object field lookup
// ----------------------------------------------------------------------

/// Position of the first entry named `key`, or -1 when no entry has that name.
pub open spec fn key_index(es: Seq<(Seq<char>, SpecValue)>, key: Seq<char>) -> int
    decreases es.len(),
{
    if es.len() == 0 {
        -1
    } else if es[0].0 == key {
        0
    } else if key_index(es.drop_first(), key) < 0 {
        -1
    } else {
        key_index(es.drop_first(), key) + 1
    }
}

/// Whether an object with entries `es` has a field named `key`.
pub open spec fn obj_has_key(es: Seq<(Seq<char>, SpecValue)>, key: Seq<char>) -> bool {
    key_index(es, key) >= 0
}

/// The value of the first field named `key`, if any.
pub open spec fn obj_get(es: Seq<(Seq<char>, SpecValue)>, key: Seq<char>) -> Option<SpecValue> {
    if obj_has_key(es, key) {
        Some(es[key_index(es, key)].1)
    } else {
        None
    }
}

/// The document's field named `key`: a missing field reads as `Null`, as does
/// any field of a non-object value.
pub open spec fn field_of(doc: SpecValue, key: Seq<char>) -> SpecValue {
    match doc {
        SpecValue::Obj(es) => match obj_get(es, key) {
            Some(v) => v,
            None => SpecValue::Null,
        },
        _ => SpecValue::Null,
    }
}

/// What `key_index` finds: a position holding `key` that no earlier position
/// holds, or the absence of `key` altogether.
pub broadcast proof fn lemma_key_index(es: Seq<(Seq<char>, SpecValue)>, key: Seq<char>)
    ensures
        #![trigger key_index(es, key)]
        key_index(es, key) >= 0 ==> key_index(es, key) < es.len() && es[key_index(es, key)].0
            == key,
        key_index(es, key) >= 0 ==> forall|j: int|
            0 <= j < key_index(es, key) ==> (#[trigger] es[j]).0 != key,
        key_index(es, key) < 0 ==> forall|j: int| 0 <= j < es.len() ==> (#[trigger] es[j]).0 != key,
    decreases es.len(),
{
    if es.len() > 0 && es[0].0 != key {
        let t = es.drop_first();
        lemma_key_index(t, key);
        if key_index(es, key) >= 0 {
            assert forall|j: int| 0 <= j < key_index(es, key) implies (#[trigger] es[j]).0
                != key by {
                if j > 0 {
                    assert(es[j] == t[j - 1]);
                }
            }
        } else {
            assert forall|j: int| 0 <= j < es.len() implies (#[trigger] es[j]).0 != key by {
                if j > 0 {
                    assert(es[j] == t[j - 1]);
                }
            }
        }
    }
}

/// `key_index` finds exactly the first matching position.
pub proof fn lemma_key_index_at(es: Seq<(Seq<char>, SpecValue)>, key: Seq<char>, j: int)
    requires
        0 <= j < es.len(),
        es[j].0 == key,
        forall|jj: int| 0 <= jj < j ==> (#[trigger] es[jj]).0 != key,
    ensures
        key_index(es, key) == j,
    decreases j,
{
    if j > 0 {
        lemma_key_index_at(es.drop_first(), key, j - 1);
    }
}

// ----------------------------------------------------------------------
// Well-formedness: object keys are unique, at every level
// ----------------------------------------------------------------------

/// A well-formed value: every object's keys are pairwise distinct, recursively.
pub open spec fn wf(v: SpecValue) -> bool
    decreases v,
{
    match v {
        SpecValue::Arr(items) => forall|i: int| 0 <= i < items.len() ==> wf(#[trigger] items[i]),
        SpecValue::Obj(es) => {
            &&& forall|i: int, j: int|
                0 <= i < j < es.len() ==> (#[trigger] es[i]).0 != (#[trigger] es[j]).0
            &&& forall|i: int| 0 <= i < es.len() ==> wf((#[trigger] es[i]).1)
        },
        _ => true,
    }
}

// ----------------------------------------------------------------------
// Structural equality
// ----------------------------------------------------------------------

/// Whether some entry of `ys` has the name and (structurally) the value of `e`.
pub open spec fn entry_matched(e: (Seq<char>, SpecValue), ys: Seq<(Seq<char>, SpecValue)>) -> bool
    decreases e,
{
    exists|j: int| 0 <= j < ys.len() && (#[trigger] ys[j]).0 == e.0 && value_eq(e.1, ys[j].1)
}

/// Whether some entry of `xs` has the name and (structurally) the value of `e`.
pub open spec fn entry_matched_by(
    xs: Seq<(Seq<char>, SpecValue)>,
    e: (Seq<char>, SpecValue),
) -> bool
    decreases xs,
{
    exists|i: int| 0 <= i < xs.len() && (#[trigger] xs[i]).0 == e.0 && value_eq(xs[i].1, e.1)
}

/// Deep structural equality: order-sensitive for sequences, order-insensitive
/// for objects (same key set, structurally equal values per key).
pub open spec fn value_eq(a: SpecValue, b: SpecValue) -> bool
    decreases a,
{
    match (a, b) {
        (SpecValue::Null, SpecValue::Null) => true,
        (SpecValue::Bool(x), SpecValue::Bool(y)) => x == y,
        (SpecValue::Num(x), SpecValue::Num(y)) => x == y,
        (SpecValue::Str(x), SpecValue::Str(y)) => x == y,
        (SpecValue::Arr(x), SpecValue::Arr(y)) => x.len() == y.len() && (forall|i: int|
            0 <= i < x.len() ==> value_eq(#[trigger] x[i], y[i])),
        (SpecValue::Obj(x), SpecValue::Obj(y)) => {
            &&& forall|i: int| 0 <= i < x.len() ==> entry_matched(#[trigger] x[i], y)
            &&& forall|j: int| 0 <= j < y.len() ==> entry_matched_by(x, #[trigger] y[j])
        },
        _ => false,
    }
}

/// Finds the position of the first entry of `es` named `key`.
pub fn find_key(es: &Vec<(String, Value)>, key: &str) -> (r: Option<usize>)
    ensures
        match r {
            Some(j) => key_index(entry_views_of(es@), key@) == j,
            None => key_index(entry_views_of(es@), key@) == -1,
        },
{
    let ghost kvs = entry_views_of(es@);
    let mut i: usize = 0;
    while i < es.len()
        invariant
            i <= es@.len(),
            kvs == entry_views_of(es@),
            forall|j: int| 0 <= j < i ==> (#[trigger] kvs[j]).0 != key@,
        decreases es@.len() - i,
    {
        if crate::text::str_eq(es[i].0.as_str(), key) {
            proof {
                lemma_key_index_at(kvs, key@, i as int);
            }
            return Some(i);
        }
        i = i + 1;
    }
    proof {
        lemma_key_index(kvs, key@);
    }
    None
}

/// What structural equality means for two sequences.
pub proof fn lemma_value_eq_arr(xs: Seq<SpecValue>, ys: Seq<SpecValue>)
    ensures
        value_eq(SpecValue::Arr(xs), SpecValue::Arr(ys)) == (xs.len() == ys.len() && (forall|i: int|
            0 <= i < xs.len() ==> value_eq(#[trigger] xs[i], ys[i]))),
{
    let a = SpecValue::Arr(xs);
    let b = SpecValue::Arr(ys);
    assert(a matches SpecValue::Arr(x) && x == xs);
    assert(b matches SpecValue::Arr(y) && y == ys);
}

/// What structural equality means for two objects.
pub proof fn lemma_value_eq_obj(
    xs: Seq<(Seq<char>, SpecValue)>,
    ys: Seq<(Seq<char>, SpecValue)>,
)
    ensures
        value_eq(SpecValue::Obj(xs), SpecValue::Obj(ys)) == ({
            &&& forall|i: int| 0 <= i < xs.len() ==> entry_matched(#[trigger] xs[i], ys)
            &&& forall|j: int| 0 <= j < ys.len() ==> entry_matched_by(xs, #[trigger] ys[j])
        }),
{
    let a = SpecValue::Obj(xs);
    let b = SpecValue::Obj(ys);
    assert(a matches SpecValue::Obj(x) && x == xs);
    assert(b matches SpecValue::Obj(y) && y == ys);
}

/// An element of a well-formed sequence is well formed.
pub proof fn lemma_wf_arr_elem(items: Seq<SpecValue>, i: int)
    requires
        wf(SpecValue::Arr(items)),
        0 <= i < items.len(),
    ensures
        wf(items[i]),
{
    let v = SpecValue::Arr(items);
    assert(v matches SpecValue::Arr(x) && x == items);
    assert(wf(v) == (forall|k: int| 0 <= k < items.len() ==> wf(#[trigger] items[k])));
}

/// What well-formedness means for an object's entries.
pub proof fn lemma_wf_obj(es: Seq<(Seq<char>, SpecValue)>)
    requires
        wf(SpecValue::Obj(es)),
    ensures
        forall|i: int, j: int| 0 <= i < j < es.len() ==> (#[trigger] es[i]).0 != (#[trigger] es[j]).0,
        forall|i: int| 0 <= i < es.len() ==> wf((#[trigger] es[i]).1),
{
    let v = SpecValue::Obj(es);
    assert(v matches SpecValue::Obj(x) && x == es);
    assert(wf(v) == ({
        &&& forall|i: int, j: int|
            0 <= i < j < es.len() ==> (#[trigger] es[i]).0 != (#[trigger] es[j]).0
        &&& forall|i: int| 0 <= i < es.len() ==> wf((#[trigger] es[i]).1)
    }));
}

/// A field value of a well-formed object is well formed.
pub proof fn lemma_wf_obj_entry(es: Seq<(Seq<char>, SpecValue)>, i: int)
    requires
        wf(SpecValue::Obj(es)),
        0 <= i < es.len(),
    ensures
        wf(es[i].1),
{
    lemma_wf_obj(es);
}

/// An entry matches nothing in a sequence that does not hold its name.
proof fn lemma_none_matched(e: (Seq<char>, SpecValue), ys: Seq<(Seq<char>, SpecValue)>)
    requires
        forall|j: int| 0 <= j < ys.len() ==> (#[trigger] ys[j]).0 != e.0,
    ensures
        !entry_matched(e, ys),
{
}

/// In a well-formed object, the sole entry named as `e` decides the match.
proof fn lemma_not_matched(e: (Seq<char>, SpecValue), ys: Seq<(Seq<char>, SpecValue)>, j: int)
    requires
        wf(SpecValue::Obj(ys)),
        0 <= j < ys.len(),
        ys[j].0 == e.0,
        forall|jj: int| 0 <= jj < j ==> (#[trigger] ys[jj]).0 != e.0,
        !value_eq(e.1, ys[j].1),
    ensures
        !entry_matched(e, ys),
{
    lemma_wf_obj(ys);
    assert forall|j2: int| 0 <= j2 < ys.len() && (#[trigger] ys[j2]).0 == e.0 implies j2 == j by {
        if j2 > j {
            assert(ys[j].0 != ys[j2].0);
        }
    }
}

/// An entry matches nothing in a sequence that does not hold its name.
proof fn lemma_none_matched_by(xs: Seq<(Seq<char>, SpecValue)>, e: (Seq<char>, SpecValue))
    requires
        forall|i: int| 0 <= i < xs.len() ==> (#[trigger] xs[i]).0 != e.0,
    ensures
        !entry_matched_by(xs, e),
{
}

/// In a well-formed object, the sole entry named as `e` decides the match.
proof fn lemma_not_matched_by(xs: Seq<(Seq<char>, SpecValue)>, e: (Seq<char>, SpecValue), i: int)
    requires
        wf(SpecValue::Obj(xs)),
        0 <= i < xs.len(),
        xs[i].0 == e.0,
        forall|ii: int| 0 <= ii < i ==> (#[trigger] xs[ii]).0 != e.0,
        !value_eq(xs[i].1, e.1),
    ensures
        !entry_matched_by(xs, e),
{
    lemma_wf_obj(xs);
    assert forall|i2: int| 0 <= i2 < xs.len() && (#[trigger] xs[i2]).0 == e.0 implies i2 == i by {
        if i2 > i {
            assert(xs[i].0 != xs[i2].0);
        }
    }
}

/// Decides deep structural equality of two well-formed values.
#[verifier::loop_isolation(false)]
pub fn values_equal(a: &Value, b: &Value) -> (r: bool)
    requires
        wf(view_of(*a)),
        wf(view_of(*b)),
    ensures
        r == value_eq(view_of(*a), view_of(*b)),
    decreases *a,
{
    match (a, b) {
        (Value::Null, Value::Null) => true,
        (Value::Bool(x), Value::Bool(y)) => *x == *y,
        (Value::Num(x), Value::Num(y)) => *x == *y,
        (Value::Str(x), Value::Str(y)) => crate::text::str_eq(x.as_str(), y.as_str()),
        (Value::Arr(x), Value::Arr(y)) => {
            let ghost xv = views_of(x@);
            let ghost yv = views_of(y@);
            if x.len() != y.len() {
                proof {
                    lemma_value_eq_arr(xv, yv);
                }
                return false;
            }
            let mut i: usize = 0;
            while i < x.len()
                invariant
                    i <= x@.len(),
                    x@.len() == y@.len(),
                    xv == views_of(x@),
                    yv == views_of(y@),
                    wf(view_of(*a)),
                    wf(view_of(*b)),
                    view_of(*a) == SpecValue::Arr(xv),
                    view_of(*b) == SpecValue::Arr(yv),
                    forall|k: int| 0 <= k < i ==> value_eq(#[trigger] xv[k], yv[k]),
                decreases x@.len() - i,
            {
                proof {
                    assert(decreases_to!(*a => *x));
                    assert(decreases_to!(*x => (*x)@));
                    assert(decreases_to!((*x)@ => (*x)@[i as int]));
                    lemma_wf_arr_elem(xv, i as int);
                    lemma_wf_arr_elem(yv, i as int);
                    assert(xv[i as int] == view_of(x@[i as int]));
                    assert(yv[i as int] == view_of(y@[i as int]));
                }
                if !values_equal(&x[i], &y[i]) {
                    proof {
                        lemma_value_eq_arr(xv, yv);
                    }
                    return false;
                }
                i = i + 1;
            }
            proof {
                lemma_value_eq_arr(xv, yv);
            }
            true
        },
        (Value::Obj(x), Value::Obj(y)) => {
            let ghost xv = entry_views_of(x@);
            let ghost yv = entry_views_of(y@);
            let mut i: usize = 0;
            while i < x.len()
                invariant
                    i <= x@.len(),
                    xv == entry_views_of(x@),
                    yv == entry_views_of(y@),
                    wf(view_of(*a)),
                    wf(view_of(*b)),
                    view_of(*a) == SpecValue::Obj(xv),
                    view_of(*b) == SpecValue::Obj(yv),
                    forall|k: int| 0 <= k < i ==> entry_matched(#[trigger] xv[k], yv),
                decreases x@.len() - i,
            {
                proof {
                    assert(xv[i as int] == (x@[i as int].0@, view_of(x@[i as int].1)));
                }
                match find_key(y, x[i].0.as_str()) {
                    None => {
                        proof {
                            lemma_key_index(yv, xv[i as int].0);
                            lemma_none_matched(xv[i as int], yv);
                            lemma_value_eq_obj(xv, yv);
                        }
                        return false;
                    },
                    Some(j) => {
                        proof {
                            assert(decreases_to!(*a => *x));
                            assert(decreases_to!(*x => (*x)@));
                            assert(decreases_to!((*x)@ => (*x)@[i as int]));
                            assert(decreases_to!((*x)@[i as int] => (*x)@[i as int].1));
                            lemma_key_index(yv, xv[i as int].0);
                            lemma_wf_obj_entry(xv, i as int);
                            lemma_wf_obj_entry(yv, j as int);
                            assert(yv[j as int] == (y@[j as int].0@, view_of(y@[j as int].1)));
                        }
                        if !values_equal(&x[i].1, &y[j].1) {
                            proof {
                                lemma_not_matched(xv[i as int], yv, j as int);
                                lemma_value_eq_obj(xv, yv);
                            }
                            return false;
                        }
                    },
                }
                i = i + 1;
            }
            let mut j: usize = 0;
            while j < y.len()
                invariant
                    j <= y@.len(),
                    xv == entry_views_of(x@),
                    yv == entry_views_of(y@),
                    wf(view_of(*a)),
                    wf(view_of(*b)),
                    view_of(*a) == SpecValue::Obj(xv),
                    view_of(*b) == SpecValue::Obj(yv),
                    forall|k: int| 0 <= k < xv.len() ==> entry_matched(#[trigger] xv[k], yv),
                    forall|k: int| 0 <= k < j ==> entry_matched_by(xv, #[trigger] yv[k]),
                decreases y@.len() - j,
            {
                proof {
                    assert(yv[j as int] == (y@[j as int].0@, view_of(y@[j as int].1)));
                }
                match find_key(x, y[j].0.as_str()) {
                    None => {
                        proof {
                            lemma_key_index(xv, yv[j as int].0);
                            lemma_none_matched_by(xv, yv[j as int]);
                            lemma_value_eq_obj(xv, yv);
                        }
                        return false;
                    },
                    Some(i2) => {
                        proof {
                            lemma_key_index(xv, yv[j as int].0);
                            assert(decreases_to!(*a => *x));
                            assert(decreases_to!(*x => (*x)@));
                            assert(decreases_to!((*x)@ => (*x)@[i2 as int]));
                            assert(decreases_to!((*x)@[i2 as int] => (*x)@[i2 as int].1));
                            lemma_wf_obj_entry(xv, i2 as int);
                            lemma_wf_obj_entry(yv, j as int);
                            assert(xv[i2 as int] == (x@[i2 as int].0@, view_of(x@[i2 as int].1)));
                        }
                        if !values_equal(&x[i2].1, &y[j].1) {
                            proof {
                                lemma_not_matched_by(xv, yv[j as int], i2 as int);
                                lemma_value_eq_obj(xv, yv);
                            }
                            return false;
                        }
                    },
                }
                j = j + 1;
            }
            proof {
                lemma_value_eq_obj(xv, yv);
            }
            true
        },
        _ => false,
    }
}

// ----------------------------------------------------------------------
// Cloning
// ----------------------------------------------------------------------

/// Copies a value; the copy has the same model.
#[verifier::loop_isolation(false)]
pub fn clone_value(v: &Value) -> (res: Value)
    ensures
        view_of(res) == view_of(*v),
    decreases *v,
{
    match v {
        Value::Null => Value::Null,
        Value::Bool(b) => Value::Bool(*b),
        Value::Num(n) => Value::Num(*n),
        Value::Str(s) => Value::Str(s.clone()),
        Value::Arr(items) => {
            let mut out: Vec<Value> = Vec::new();
            let mut i: usize = 0;
            while i < items.len()
                invariant
                    i <= items@.len(),
                    out@.len() == i,
                    forall|k: int|
                        0 <= k < i ==> view_of(#[trigger] out@[k]) == view_of(items@[k]),
                decreases items@.len() - i,
            {
                proof {
                    assert(decreases_to!(*v => *items));
                    assert(decreases_to!(*items => (*items)@));
                    assert(decreases_to!((*items)@ => (*items)@[i as int]));
                }
                let c = clone_value(&items[i]);
                out.push(c);
                i = i + 1;
            }
            proof {
                assert(views_of(out@) =~= views_of(items@));
            }
            Value::Arr(out)
        },
        Value::Obj(es) => {
            let mut out: Vec<(String, Value)> = Vec::new();
            let mut i: usize = 0;
            while i < es.len()
                invariant
                    i <= es@.len(),
                    out@.len() == i,
                    forall|k: int|
                        0 <= k < i ==> (#[trigger] out@[k]).0@ == es@[k].0@ && view_of(out@[k].1)
                            == view_of(es@[k].1),
                decreases es@.len() - i,
            {
                proof {
                    assert(decreases_to!(*v => *es));
                    assert(decreases_to!(*es => (*es)@));
                    assert(decreases_to!((*es)@ => (*es)@[i as int]));
                    assert(decreases_to!((*es)@[i as int] => (*es)@[i as int].1));
                }
                let c = clone_value(&es[i].1);
                let k = es[i].0.clone();
                out.push((k, c));
                i = i + 1;
            }
            proof {
                assert(entry_views_of(out@) =~= entry_views_of(es@));
            }
            Value::Obj(out)
        },
    }
}

impl Clone for Value {
    /// Copies a value; the copy has the same model.
    fn clone(&self) -> (res: Self)
        ensures
            view_of(res) == view_of(*self),
    {
        clone_value(self)
    }
}

} // verus!