//! The evaluation pipeline: predicate matching, type-aware comparison,
//! stable multi-key sorting, pagination, projection, schema validation,
//! and merge-style mutation.

use crate::text::{flip, str_cmp, str_compare, Cmp};
use crate::value::{
    entry_views_of, field_of, key_index, lemma_key_index, lemma_view_shape, lemma_wf_obj_entry,
    obj_get, obj_has_key, value_eq, values_equal, view_of, views_of, wf, SpecValue, Value,
};
use vstd::prelude::*;

verus! {

broadcast use vstd::std_specs::vec::group_vec_axioms;

// ----------------------------------------------------------------------
// Value comparator
// ----------------------------------------------------------------------

/// Sort order of two values: strings in byte-lexicographic order, numbers by
/// magnitude, booleans with `false` first. Every other pairing is left equal,
/// so it falls through to the next sort key or to input order.
pub open spec fn spec_compare(a: SpecValue, b: SpecValue) -> Cmp {
    match (a, b) {
        (SpecValue::Str(x), SpecValue::Str(y)) => str_cmp(x, y),
        (SpecValue::Num(x), SpecValue::Num(y)) => if x < y {
            Cmp::Less
        } else if x > y {
            Cmp::Greater
        } else {
            Cmp::Equal
        },
        (SpecValue::Bool(x), SpecValue::Bool(y)) => if !x && y {
            Cmp::Less
        } else if x && !y {
            Cmp::Greater
        } else {
            Cmp::Equal
        },
        _ => Cmp::Equal,
    }
}

/// Compares two values for sorting; never fails, whatever the pair.
pub fn compare_values(a: &Value, b: &Value) -> (c: Cmp)
    ensures
        c == spec_compare(view_of(*a), view_of(*b)),
{
    match (a, b) {
        (Value::Str(x), Value::Str(y)) => str_compare(x.as_str(), y.as_str()),
        (Value::Num(x), Value::Num(y)) => {
            if *x < *y {
                Cmp::Less
            } else if *x > *y {
                Cmp::Greater
            } else {
                Cmp::Equal
            }
        },
        (Value::Bool(x), Value::Bool(y)) => {
            if !*x && *y {
                Cmp::Less
            } else if *x && !*y {
                Cmp::Greater
            } else {
                Cmp::Equal
            }
        },
        _ => {
            proof {
                lemma_view_shape(*a);
                lemma_view_shape(*b);
            }
            Cmp::Equal
        },
    }
}

// ----------------------------------------------------------------------
// Predicate matcher
// ----------------------------------------------------------------------

/// What one filter entry demands of a document: an object value is a set of
/// operator conditions on the field (all must hold); any other value must
/// structurally equal the field.
pub open spec fn cond_holds(doc: SpecValue, key: Seq<char>, qv: SpecValue) -> bool {
    match qv {
        SpecValue::Obj(ops) => forall|j: int|
            0 <= j < ops.len() ==> crate::operators::spec_evaluate(
                (#[trigger] ops[j]).0,
                field_of(doc, key),
                ops[j].1,
            ),
        _ => value_eq(field_of(doc, key), qv),
    }
}

/// Whether a document satisfies a filter: every entry of an object filter
/// must hold (implicit AND); an empty or non-object filter matches every
/// document.
pub open spec fn spec_matches(doc: SpecValue, query: SpecValue) -> bool {
    match query {
        SpecValue::Obj(qs) => forall|i: int|
            0 <= i < qs.len() ==> cond_holds(doc, (#[trigger] qs[i]).0, qs[i].1),
        _ => true,
    }
}

/// Looks up a document's field; `None` when the document is not an object or
/// lacks the field, which the matcher reads as `Null`.
pub fn get_field<'a>(doc: &'a Value, key: &str) -> (r: Option<&'a Value>)
    ensures
        match r {
            Some(f) => field_of(view_of(*doc), key@) == view_of(*f) && (wf(view_of(*doc)) ==> wf(
                view_of(*f),
            )),
            None => field_of(view_of(*doc), key@) == SpecValue::Null,
        },
{
    match doc {
        Value::Obj(es) => {
            match crate::value::find_key(es, key) {
                Some(j) => {
                    proof {
                        lemma_key_index(entry_views_of(es@), key@);
                        if wf(view_of(*doc)) {
                            crate::value::lemma_wf_obj(entry_views_of(es@));
                        }
                    }
                    Some(&es[j].1)
                },
                None => None,
            }
        },
        _ => {
            proof {
                lemma_view_shape(*doc);
            }
            None
        },
    }
}

/// Checks one filter entry against a document.
#[verifier::loop_isolation(false)]
fn eval_condition(doc: &Value, key: &str, qv: &Value) -> (r: bool)
    requires
        wf(view_of(*doc)),
        wf(view_of(*qv)),
    ensures
        r == cond_holds(view_of(*doc), key@, view_of(*qv)),
{
    let null_val = Value::Null;
    proof {
        assert(view_of(null_val) == SpecValue::Null);
        assert(wf(SpecValue::Null));
    }
    let field = match get_field(doc, key) {
        Some(f) => f,
        None => &null_val,
    };
    match qv {
        Value::Obj(ops) => {
            let ghost opsv = entry_views_of(ops@);
            let mut j: usize = 0;
            while j < ops.len()
                invariant
                    j <= ops@.len(),
                    forall|k: int|
                        0 <= k < j ==> crate::operators::spec_evaluate(
                            (#[trigger] opsv[k]).0,
                            field_of(view_of(*doc), key@),
                            opsv[k].1,
                        ),
                decreases ops@.len() - j,
            {
                proof {
                    crate::value::lemma_wf_obj_entry(opsv, j as int);
                }
                if !crate::operators::evaluate(ops[j].0.as_str(), field, &ops[j].1) {
                    proof {
                        assert(view_of(*qv) == SpecValue::Obj(opsv));
                        assert(opsv[j as int] == (ops@[j as int].0@, view_of(ops@[j as int].1)));
                        assert(!crate::operators::spec_evaluate(
                            opsv[j as int].0,
                            field_of(view_of(*doc), key@),
                            opsv[j as int].1,
                        ));
                    }
                    return false;
                }
                j = j + 1;
            }
            true
        },
        _ => {
            proof {
                lemma_view_shape(*qv);
            }
            values_equal(field, qv)
        },
    }
}

/// Decides whether a document satisfies a filter: every entry of an object
/// filter must hold (implicit AND); an empty or non-object filter matches
/// every document.
#[verifier::loop_isolation(false)]
pub fn matches_query(doc: &Value, query: &Value) -> (r: bool)
    requires
        wf(view_of(*doc)),
        wf(view_of(*query)),
    ensures
        r == spec_matches(view_of(*doc), view_of(*query)),
{
    match query {
        Value::Obj(qs) => {
            let ghost qsv = entry_views_of(qs@);
            let mut i: usize = 0;
            while i < qs.len()
                invariant
                    i <= qs@.len(),
                    forall|k: int|
                        0 <= k < i ==> cond_holds(view_of(*doc), (#[trigger] qsv[k]).0, qsv[k].1),
                decreases qs@.len() - i,
            {
                proof {
                    crate::value::lemma_wf_obj_entry(qsv, i as int);
                }
                if !eval_condition(doc, qs[i].0.as_str(), &qs[i].1) {
                    return false;
                }
                i = i + 1;
            }
            true
        },
        _ => {
            proof {
                lemma_view_shape(*query);
            }
            true
        },
    }
}

// ----------------------------------------------------------------------
// Multi-key document comparison
// ----------------------------------------------------------------------

/// Whether a sort direction value means descending (the number -1).
pub open spec fn is_descending(dir: SpecValue) -> bool {
    dir == SpecValue::Num(-(crate::value::NUM_SCALE as int))
}

/// Order of two documents under an ordered list of sort keys: the first key
/// whose comparison is decided wins; later keys break ties; documents that
/// tie on every key are left equal.
pub open spec fn doc_cmp(a: SpecValue, b: SpecValue, keys: Seq<(Seq<char>, SpecValue)>) -> Cmp
    decreases keys.len(),
{
    if keys.len() == 0 {
        Cmp::Equal
    } else {
        let c = spec_compare(field_of(a, keys[0].0), field_of(b, keys[0].0));
        let d = if is_descending(keys[0].1) {
            flip(c)
        } else {
            c
        };
        if d != Cmp::Equal {
            d
        } else {
            doc_cmp(a, b, keys.drop_first())
        }
    }
}

/// Whether a sort direction value means descending.
fn is_desc(dir: &Value) -> (r: bool)
    ensures
        r == is_descending(view_of(*dir)),
{
    match dir {
        Value::Num(n) => *n == -crate::value::NUM_SCALE,
        _ => {
            proof {
                lemma_view_shape(*dir);
            }
            false
        },
    }
}

/// Compares two documents at one sort key, honoring its direction.
fn compare_at_key(a: &Value, b: &Value, key: &str, dir: &Value) -> (c: Cmp)
    ensures
        c == ({
            let c0 = spec_compare(field_of(view_of(*a), key@), field_of(view_of(*b), key@));
            if is_descending(view_of(*dir)) {
                flip(c0)
            } else {
                c0
            }
        }),
{
    let null_val = Value::Null;
    let fa = match get_field(a, key) {
        Some(f) => f,
        None => &null_val,
    };
    let fb = match get_field(b, key) {
        Some(f) => f,
        None => &null_val,
    };
    let c = compare_values(fa, fb);
    if is_desc(dir) {
        match c {
            Cmp::Less => Cmp::Greater,
            Cmp::Equal => Cmp::Equal,
            Cmp::Greater => Cmp::Less,
        }
    } else {
        c
    }
}

/// Compares two documents under an ordered list of sort keys.
#[verifier::loop_isolation(false)]
pub fn compare_docs(a: &Value, b: &Value, keys: &Vec<(String, Value)>) -> (c: Cmp)
    ensures
        c == doc_cmp(view_of(*a), view_of(*b), entry_views_of(keys@)),
{
    let ghost va = view_of(*a);
    let ghost vb = view_of(*b);
    let ghost kv = entry_views_of(keys@);
    proof {
        assert(kv.skip(0) =~= kv);
    }
    let mut i: usize = 0;
    while i < keys.len()
        invariant
            i <= keys@.len(),
            doc_cmp(va, vb, kv) == doc_cmp(va, vb, kv.skip(i as int)),
        decreases keys@.len() - i,
    {
        let c = compare_at_key(a, b, keys[i].0.as_str(), &keys[i].1);
        proof {
            assert(kv[i as int] == (keys@[i as int].0@, view_of(keys@[i as int].1)));
            assert(kv.skip(i as int)[0] == kv[i as int]);
            assert(kv.skip(i as int).drop_first() =~= kv.skip(i as int + 1));
        }
        match c {
            Cmp::Equal => {},
            _ => {
                return c;
            },
        }
        i = i + 1;
    }
    proof {
        assert(kv.skip(kv.len() as int) =~= Seq::<(Seq<char>, SpecValue)>::empty());
    }
    Cmp::Equal
}

// ----------------------------------------------------------------------
// Stable multi-key sorting
// ----------------------------------------------------------------------

/// Where a new document lands among already-placed ones: before exactly the
/// strictly greater tail, after everything else.
pub open spec fn insert_sorted(
    t: Seq<SpecValue>,
    v: SpecValue,
    keys: Seq<(Seq<char>, SpecValue)>,
) -> Seq<SpecValue>
    decreases t.len(),
{
    if t.len() == 0 {
        seq![v]
    } else if doc_cmp(t.last(), v, keys) == Cmp::Greater {
        insert_sorted(t.drop_last(), v, keys).push(t.last())
    } else {
        t.push(v)
    }
}

/// Stable multi-key sort: documents are taken in input order, and each is
/// placed before exactly the strictly greater ones, so documents with equal
/// sort keys keep their input order.
pub open spec fn stable_sort(s: Seq<SpecValue>, keys: Seq<(Seq<char>, SpecValue)>) -> Seq<
    SpecValue,
>
    decreases s.len(),
{
    if s.len() == 0 {
        Seq::empty()
    } else {
        insert_sorted(stable_sort(s.drop_last(), keys), s.last(), keys)
    }
}

/// Finds where `insert_sorted` places `d` among the documents of `out`.
#[verifier::loop_isolation(false)]
fn insert_pos(out: &Vec<Value>, d: &Value, keys: &Vec<(String, Value)>) -> (pos: usize)
    ensures
        pos <= out@.len(),
        insert_sorted(views_of(out@), view_of(*d), entry_views_of(keys@)) == views_of(
            out@,
        ).take(pos as int).push(view_of(*d)) + views_of(out@).skip(pos as int),
{
    let ghost ov = views_of(out@);
    let ghost dv = view_of(*d);
    let ghost kv = entry_views_of(keys@);
    let mut pos: usize = out.len();
    proof {
        assert(ov.take(pos as int) =~= ov);
        assert(insert_sorted(ov.take(pos as int), dv, kv) + ov.skip(pos as int) =~= insert_sorted(
            ov,
            dv,
            kv,
        ));
    }
    while pos > 0
        invariant
            pos <= out@.len(),
            insert_sorted(ov, dv, kv) == insert_sorted(ov.take(pos as int), dv, kv) + ov.skip(
                pos as int,
            ),
        decreases pos,
    {
        let c = compare_docs(&out[pos - 1], d, keys);
        proof {
            assert(ov[pos as int - 1] == view_of(out@[pos as int - 1]));
            assert(ov.take(pos as int).last() == ov[pos as int - 1]);
            assert(ov.take(pos as int).drop_last() =~= ov.take(pos as int - 1));
        }
        match c {
            Cmp::Greater => {
                proof {
                    assert(insert_sorted(ov.take(pos as int - 1), dv, kv).push(
                        ov[pos as int - 1],
                    ) + ov.skip(pos as int) =~= insert_sorted(ov.take(pos as int - 1), dv, kv)
                        + ov.skip(pos as int - 1));
                }
                pos = pos - 1;
            },
            _ => {
                proof {
                    assert(insert_sorted(ov.take(pos as int), dv, kv) =~= ov.take(
                        pos as int,
                    ).push(dv));
                }
                return pos;
            },
        }
    }
    proof {
        assert(ov.take(0).len() == 0);
        assert(insert_sorted(ov.take(0), dv, kv) =~= ov.take(0).push(dv));
    }
    0
}

/// Sorts documents by the sort keys, stably.
#[verifier::loop_isolation(false)]
pub fn sort_docs(docs: Vec<Value>, keys: &Vec<(String, Value)>) -> (r: Vec<Value>)
    ensures
        views_of(r@) == stable_sort(views_of(docs@), entry_views_of(keys@)),
{
    let ghost dv = views_of(docs@);
    let ghost kv = entry_views_of(keys@);
    let mut out: Vec<Value> = Vec::new();
    proof {
        assert(dv.take(0).len() == 0);
        assert(views_of(out@) =~= stable_sort(dv.take(0), kv));
    }
    let mut i: usize = 0;
    while i < docs.len()
        invariant
            i <= docs@.len(),
            views_of(out@) == stable_sort(dv.take(i as int), kv),
        decreases docs@.len() - i,
    {
        let d = docs[i].clone();
        let ghost before = views_of(out@);
        let pos = insert_pos(&out, &d, keys);
        out.insert(pos, d);
        proof {
            assert(view_of(d) == dv[i as int]);
            assert(views_of(out@) =~= before.take(pos as int).push(dv[i as int]) + before.skip(
                pos as int,
            ));
            assert(dv.take(i as int + 1).drop_last() =~= dv.take(i as int));
            assert(dv.take(i as int + 1).last() == dv[i as int]);
        }
        i = i + 1;
    }
    proof {
        assert(dv.take(docs@.len() as int) =~= dv);
    }
    out
}

// ----------------------------------------------------------------------
// Projection
// ----------------------------------------------------------------------

/// Whether a projection flag includes a field: the number 1 or `true`.
pub open spec fn truthy(v: SpecValue) -> bool {
    v == SpecValue::Num(crate::value::NUM_SCALE as int) || v == SpecValue::Bool(true)
}

/// Whether a projection flag excludes a field: the number 0 or `false`.
pub open spec fn falsy(v: SpecValue) -> bool {
    v == SpecValue::Num(0) || v == SpecValue::Bool(false)
}

/// The entries an explicit projection keeps, in the projection's order: each
/// field with a truthy flag that the document holds.
pub open spec fn proj_entries(
    ds: Seq<(Seq<char>, SpecValue)>,
    ps: Seq<(Seq<char>, SpecValue)>,
) -> Seq<(Seq<char>, SpecValue)>
    decreases ps.len(),
{
    if ps.len() == 0 {
        Seq::empty()
    } else {
        let rest = proj_entries(ds, ps.drop_first());
        if truthy(ps[0].1) && obj_has_key(ds, ps[0].0) {
            seq![(ps[0].0, ds[key_index(ds, ps[0].0)].1)] + rest
        } else {
            rest
        }
    }
}

/// Whether a projection explicitly excludes `_id` with a falsy flag.
pub open spec fn id_excluded(ps: Seq<(Seq<char>, SpecValue)>) -> bool {
    obj_has_key(ps, "_id"@) && falsy(ps[key_index(ps, "_id"@)].1)
}

/// The projected document: the explicit truthy fields, and then `_id` from
/// the source unless already kept or explicitly excluded. An empty projection
/// is the identity, as is one over inputs that are not objects.
pub open spec fn spec_project(doc: SpecValue, proj: SpecValue) -> SpecValue {
    match (doc, proj) {
        (SpecValue::Obj(ds), SpecValue::Obj(ps)) => {
            if ps.len() == 0 {
                doc
            } else {
                let base = proj_entries(ds, ps);
                if !obj_has_key(base, "_id"@) && obj_has_key(ds, "_id"@) && !id_excluded(ps) {
                    SpecValue::Obj(base.push(("_id"@, ds[key_index(ds, "_id"@)].1)))
                } else {
                    SpecValue::Obj(base)
                }
            }
        },
        _ => doc,
    }
}

/// Whether a projection flag includes a field.
fn is_truthy(v: &Value) -> (r: bool)
    ensures
        r == truthy(view_of(*v)),
{
    match v {
        Value::Num(n) => *n == crate::value::NUM_SCALE,
        Value::Bool(b) => *b,
        _ => {
            proof {
                lemma_view_shape(*v);
            }
            false
        },
    }
}

/// Whether a projection flag excludes a field.
fn is_falsy(v: &Value) -> (r: bool)
    ensures
        r == falsy(view_of(*v)),
{
    match v {
        Value::Num(n) => *n == 0,
        Value::Bool(b) => !*b,
        _ => {
            proof {
                lemma_view_shape(*v);
            }
            false
        },
    }
}

/// Reshapes a document under a projection: fields with a truthy flag are
/// kept if present; `_id` is kept by default unless explicitly excluded; an
/// empty projection, or inputs that are not objects, leave the document
/// unchanged.
#[verifier::loop_isolation(false)]
pub fn apply_projection(doc: &Value, projection: &Value) -> (r: Value)
    ensures
        view_of(r) == spec_project(view_of(*doc), view_of(*projection)),
{
    match (doc, projection) {
        (Value::Obj(ds), Value::Obj(ps)) => {
            let ghost dsv = entry_views_of(ds@);
            let ghost psv = entry_views_of(ps@);
            if ps.len() == 0 {
                return crate::value::clone_value(doc);
            }
            let mut out: Vec<(String, Value)> = Vec::new();
            let mut i: usize = 0;
            proof {
                assert(psv.skip(0) =~= psv);
                assert(entry_views_of(out@) + proj_entries(dsv, psv.skip(0)) =~= proj_entries(
                    dsv,
                    psv,
                ));
            }
            while i < ps.len()
                invariant
                    i <= ps@.len(),
                    entry_views_of(out@) + proj_entries(dsv, psv.skip(i as int)) == proj_entries(
                        dsv,
                        psv,
                    ),
                decreases ps@.len() - i,
            {
                let ghost before = entry_views_of(out@);
                proof {
                    assert(psv[i as int] == (ps@[i as int].0@, view_of(ps@[i as int].1)));
                    assert(psv.skip(i as int)[0] == psv[i as int]);
                    assert(psv.skip(i as int).drop_first() =~= psv.skip(i as int + 1));
                }
                if is_truthy(&ps[i].1) {
                    match crate::value::find_key(ds, ps[i].0.as_str()) {
                        Some(j) => {
                            proof {
                                lemma_key_index(dsv, psv[i as int].0);
                            }
                            let k = ps[i].0.clone();
                            let v = crate::value::clone_value(&ds[j].1);
                            out.push((k, v));
                            proof {
                                assert(dsv[j as int] == (ds@[j as int].0@, view_of(
                                    ds@[j as int].1,
                                )));
                                assert(entry_views_of(out@) =~= before.push(
                                    (psv[i as int].0, dsv[j as int].1),
                                ));
                                assert(entry_views_of(out@) + proj_entries(
                                    dsv,
                                    psv.skip(i as int + 1),
                                ) =~= proj_entries(dsv, psv));
                            }
                        },
                        None => {
                        },
                    }
                }
                i = i + 1;
            }
            proof {
                assert(psv.skip(psv.len() as int) =~= Seq::<(Seq<char>, SpecValue)>::empty());
                assert(entry_views_of(out@) + Seq::<(Seq<char>, SpecValue)>::empty()
                    =~= entry_views_of(out@));
                assert(entry_views_of(out@) == proj_entries(dsv, psv));
            }
            let has_id = match crate::value::find_key(&out, "_id") {
                Some(_k) => true,
                None => false,
            };
            proof {
                lemma_key_index(entry_views_of(out@), "_id"@);
            }
            if !has_id {
                match crate::value::find_key(ds, "_id") {
                    Some(j) => {
                        proof {
                            lemma_key_index(dsv, "_id"@);
                        }
                        let excluded = match crate::value::find_key(ps, "_id") {
                            Some(k) => {
                                proof {
                                    lemma_key_index(psv, "_id"@);
                                    assert(psv[k as int] == (ps@[k as int].0@, view_of(
                                        ps@[k as int].1,
                                    )));
                                }
                                is_falsy(&ps[k].1)
                            },
                            None => false,
                        };
                        if !excluded {
                            let ghost before = entry_views_of(out@);
                            let idv = crate::value::clone_value(&ds[j].1);
                            out.push(("_id".to_owned(), idv));
                            proof {
                                assert(dsv[j as int] == (ds@[j as int].0@, view_of(
                                    ds@[j as int].1,
                                )));
                                assert(entry_views_of(out@) =~= before.push(
                                    ("_id"@, dsv[j as int].1),
                                ));
                            }
                        }
                    },
                    None => {},
                }
            }
            Value::Obj(out)
        },
        _ => {
            proof {
                lemma_view_shape(*doc);
                lemma_view_shape(*projection);
            }
            crate::value::clone_value(doc)
        },
    }
}

// ----------------------------------------------------------------------
// Schema validation
// ----------------------------------------------------------------------

/// Whether a document holds every field that `required` names; entries of
/// `required` that are not strings are ignored, and anything that is not a
/// sequence requires nothing.
pub open spec fn required_ok(ds: Seq<(Seq<char>, SpecValue)>, req: SpecValue) -> bool {
    match req {
        SpecValue::Arr(items) => forall|i: int|
            0 <= i < items.len() ==> ((#[trigger] items[i]) matches SpecValue::Str(name)
                ==> obj_has_key(ds, name)),
        _ => true,
    }
}

/// Whether a value has the named type; unknown type names always pass.
pub open spec fn type_ok(t: Seq<char>, v: SpecValue) -> bool {
    if t == "string"@ {
        v is Str
    } else if t == "number"@ {
        v is Num
    } else if t == "boolean"@ {
        v is Bool
    } else if t == "array"@ {
        v is Arr
    } else if t == "object"@ {
        v is Obj
    } else {
        true
    }
}

/// Whether a document value satisfies one field's rules: a `type` name, a
/// numeric `min`/`max` range (bypassed by non-numeric values), and an `enum`
/// allow-list (structural membership).
pub open spec fn rules_ok(dv: SpecValue, rules: SpecValue) -> bool {
    &&& (match field_of(rules, "type"@) {
        SpecValue::Str(t) => type_ok(t, dv),
        _ => true,
    })
    &&& (match field_of(rules, "min"@) {
        SpecValue::Num(m) => match dv {
            SpecValue::Num(x) => x >= m,
            _ => true,
        },
        _ => true,
    })
    &&& (match field_of(rules, "max"@) {
        SpecValue::Num(m) => match dv {
            SpecValue::Num(x) => x <= m,
            _ => true,
        },
        _ => true,
    })
    &&& (match field_of(rules, "enum"@) {
        SpecValue::Arr(allowed) => exists|i: int|
            0 <= i < allowed.len() && value_eq(#[trigger] allowed[i], dv),
        _ => true,
    })
}

/// Whether every field rule holds for the fields the document has; fields the
/// document lacks are not checked.
pub open spec fn fields_ok(ds: Seq<(Seq<char>, SpecValue)>, fields: SpecValue) -> bool {
    match fields {
        SpecValue::Obj(fs) => forall|i: int|
            0 <= i < fs.len() ==> (match obj_get(ds, (#[trigger] fs[i]).0) {
                Some(dv) => rules_ok(dv, fs[i].1),
                None => true,
            }),
        _ => true,
    }
}

/// Whether a document passes a schema. Fail-open: anything that is not an
/// object-shaped document under an object-shaped schema passes; otherwise
/// `required` existence and every per-field rule must hold.
pub open spec fn spec_validate(doc: SpecValue, schema: SpecValue) -> bool {
    match (doc, schema) {
        (SpecValue::Obj(ds), SpecValue::Obj(_ss)) => {
            &&& required_ok(ds, field_of(schema, "required"@))
            &&& fields_ok(ds, field_of(schema, "fields"@))
        },
        _ => true,
    }
}

/// Whether a value has the named type.
fn type_check(t: &str, v: &Value) -> (r: bool)
    ensures
        r == type_ok(t@, view_of(*v)),
{
    proof {
        lemma_view_shape(*v);
    }
    if crate::text::str_eq(t, "string") {
        matches!(v, Value::Str(_))
    } else if crate::text::str_eq(t, "number") {
        matches!(v, Value::Num(_))
    } else if crate::text::str_eq(t, "boolean") {
        matches!(v, Value::Bool(_))
    } else if crate::text::str_eq(t, "array") {
        matches!(v, Value::Arr(_))
    } else if crate::text::str_eq(t, "object") {
        matches!(v, Value::Obj(_))
    } else {
        true
    }
}

/// Checks one field's rules against the document's value for that field.
#[verifier::loop_isolation(false)]
fn check_rules(dv: &Value, rules: &Value) -> (r: bool)
    requires
        wf(view_of(*dv)),
        wf(view_of(*rules)),
    ensures
        r == rules_ok(view_of(*dv), view_of(*rules)),
{
    match get_field(rules, "type") {
        Some(tv) => {
            match tv {
                Value::Str(t) => {
                    if !type_check(t.as_str(), dv) {
                        return false;
                    }
                },
                _ => {
                    proof {
                        lemma_view_shape(*tv);
                    }
                },
            }
        },
        None => {},
    }
    match get_field(rules, "min") {
        Some(mv) => {
            match (mv, dv) {
                (Value::Num(m), Value::Num(x)) => {
                    if *x < *m {
                        return false;
                    }
                },
                _ => {
                    proof {
                        lemma_view_shape(*mv);
                        lemma_view_shape(*dv);
                    }
                },
            }
        },
        None => {},
    }
    match get_field(rules, "max") {
        Some(mv) => {
            match (mv, dv) {
                (Value::Num(m), Value::Num(x)) => {
                    if *x > *m {
                        return false;
                    }
                },
                _ => {
                    proof {
                        lemma_view_shape(*mv);
                        lemma_view_shape(*dv);
                    }
                },
            }
        },
        None => {},
    }
    match get_field(rules, "enum") {
        Some(ev) => {
            match ev {
                Value::Arr(allowed) => {
                    let ghost av = views_of(allowed@);
                    let mut i: usize = 0;
                    let mut found = false;
                    while i < allowed.len()
                        invariant
                            i <= allowed@.len(),
                            !found,
                            forall|k: int| 0 <= k < i ==> !value_eq(#[trigger] av[k], view_of(*dv)),
                        decreases allowed@.len() - i,
                    {
                        proof {
                            crate::value::lemma_wf_arr_elem(av, i as int);
                            assert(av[i as int] == view_of(allowed@[i as int]));
                        }
                        if values_equal(&allowed[i], dv) {
                            found = true;
                            break;
                        }
                        i = i + 1;
                    }
                    if !found {
                        return false;
                    }
                },
                _ => {
                    proof {
                        lemma_view_shape(*ev);
                    }
                },
            }
        },
        None => {},
    }
    true
}

/// Decides whether a document passes a schema: every `required` name must be
/// a field of the document, and every rule under `fields` must hold for the
/// fields the document has. Fail-open: inputs that are not objects pass.
#[verifier::loop_isolation(false)]
pub fn validate(doc: &Value, schema: &Value) -> (r: bool)
    requires
        wf(view_of(*doc)),
        wf(view_of(*schema)),
    ensures
        r == spec_validate(view_of(*doc), view_of(*schema)),
{
    let is_obj_pair = matches!(doc, Value::Obj(_)) && matches!(schema, Value::Obj(_));
    proof {
        lemma_view_shape(*doc);
        lemma_view_shape(*schema);
    }
    if !is_obj_pair {
        return true;
    }
    match doc {
        Value::Obj(ds) => {
            let ghost dsv = entry_views_of(ds@);
            match get_field(schema, "required") {
                Some(req) => {
                    match req {
                        Value::Arr(items) => {
                            let ghost iv = views_of(items@);
                            let mut i: usize = 0;
                            while i < items.len()
                                invariant
                                    i <= items@.len(),
                                    forall|k: int|
                                        0 <= k < i ==> ((#[trigger] iv[k]) matches SpecValue::Str(
                                            name,
                                        ) ==> obj_has_key(dsv, name)),
                                decreases items@.len() - i,
                            {
                                proof {
                                    assert(iv[i as int] == view_of(items@[i as int]));
                                }
                                match &items[i] {
                                    Value::Str(name) => {
                                        match crate::value::find_key(ds, name.as_str()) {
                                            Some(_j) => {},
                                            None => {
                                                return false;
                                            },
                                        }
                                    },
                                    _ => {
                                        proof {
                                            lemma_view_shape(items@[i as int]);
                                        }
                                    },
                                }
                                i = i + 1;
                            }
                        },
                        _ => {
                            proof {
                                lemma_view_shape(*req);
                            }
                        },
                    }
                },
                None => {},
            }
            match get_field(schema, "fields") {
                Some(fields) => {
                    match fields {
                        Value::Obj(fs) => {
                            let ghost fsv = entry_views_of(fs@);
                            let mut i: usize = 0;
                            while i < fs.len()
                                invariant
                                    i <= fs@.len(),
                                    forall|k: int|
                                        0 <= k < i ==> (match obj_get(
                                            dsv,
                                            (#[trigger] fsv[k]).0,
                                        ) {
                                            Some(dv) => rules_ok(dv, fsv[k].1),
                                            None => true,
                                        }),
                                decreases fs@.len() - i,
                            {
                                proof {
                                    assert(fsv[i as int] == (fs@[i as int].0@, view_of(
                                        fs@[i as int].1,
                                    )));
                                    lemma_key_index(dsv, fsv[i as int].0);
                                    crate::value::lemma_wf_obj(fsv);
                                }
                                match crate::value::find_key(ds, fs[i].0.as_str()) {
                                    Some(j) => {
                                        proof {
                                            crate::value::lemma_wf_obj(dsv);
                                            assert(dsv[j as int] == (ds@[j as int].0@, view_of(
                                                ds@[j as int].1,
                                            )));
                                        }
                                        if !check_rules(&ds[j].1, &fs[i].1) {
                                            return false;
                                        }
                                    },
                                    None => {},
                                }
                                i = i + 1;
                            }
                        },
                        _ => {
                            proof {
                                lemma_view_shape(*fields);
                            }
                        },
                    }
                },
                None => {},
            }
            true
        },
        _ => {
            true
        },
    }
}

// ----------------------------------------------------------------------
// Read pipeline: filter, sort, paginate, project
// ----------------------------------------------------------------------

/// A collection in which every document is well formed.
pub open spec fn all_wf(docs: Seq<SpecValue>) -> bool {
    forall|i: int| 0 <= i < docs.len() ==> wf(#[trigger] docs[i])
}

/// The documents that satisfy the filter, in input order.
pub open spec fn spec_filter(data: Seq<SpecValue>, query: SpecValue) -> Seq<SpecValue> {
    data.filter(|d: SpecValue| spec_matches(d, query))
}

/// The documents after the sort stage: sorted only when the sort spec is an
/// object with at least one key.
pub open spec fn spec_sorted(matched: Seq<SpecValue>, sort: SpecValue) -> Seq<SpecValue> {
    match sort {
        SpecValue::Obj(ks) => if ks.len() > 0 {
            stable_sort(matched, ks)
        } else {
            matched
        },
        _ => matched,
    }
}

/// One page: `skip` leading documents are dropped (all of them once `skip`
/// reaches the count, with no error), and a nonzero `limit` bounds what
/// remains; a `limit` of zero means unbounded.
pub open spec fn paginate(s: Seq<SpecValue>, limit: int, skip: int) -> Seq<SpecValue> {
    if skip >= s.len() {
        Seq::empty()
    } else {
        let end = if limit > 0 && skip + limit < s.len() {
            skip + limit
        } else {
            s.len() as int
        };
        s.subrange(skip, end)
    }
}

/// The whole read pipeline: filter, stable sort, paginate, project.
pub open spec fn spec_find(
    data: Seq<SpecValue>,
    query: SpecValue,
    sort: SpecValue,
    proj: SpecValue,
    limit: int,
    skip: int,
) -> Seq<SpecValue> {
    let paged = paginate(spec_sorted(spec_filter(data, query), sort), limit, skip);
    paged.map_values(|d: SpecValue| spec_project(d, proj))
}

/// Keeps the documents that satisfy the filter, in input order.
#[verifier::loop_isolation(false)]
fn filter_docs(data: &Vec<Value>, query: &Value) -> (r: Vec<Value>)
    requires
        all_wf(views_of(data@)),
        wf(view_of(*query)),
    ensures
        views_of(r@) == spec_filter(views_of(data@), view_of(*query)),
{
    let ghost dv = views_of(data@);
    let ghost qv = view_of(*query);
    let mut out: Vec<Value> = Vec::new();
    proof {
        reveal(Seq::filter);
        assert(dv.take(0).len() == 0);
        assert(views_of(out@) =~= spec_filter(dv.take(0), qv));
    }
    let mut i: usize = 0;
    while i < data.len()
        invariant
            i <= data@.len(),
            views_of(out@) == spec_filter(dv.take(i as int), qv),
        decreases data@.len() - i,
    {
        proof {
            assert(dv[i as int] == view_of(data@[i as int]));
            assert(wf(dv[i as int]));
        }
        let ghost before = views_of(out@);
        if matches_query(&data[i], query) {
            let d = crate::value::clone_value(&data[i]);
            out.push(d);
            proof {
                assert(views_of(out@) =~= before.push(dv[i as int]));
            }
        }
        proof {
            reveal(Seq::filter);
            assert(dv.take(i as int + 1).drop_last() =~= dv.take(i as int));
            assert(dv.take(i as int + 1).last() == dv[i as int]);
        }
        i = i + 1;
    }
    proof {
        assert(dv.take(data@.len() as int) =~= dv);
    }
    out
}

/// Runs the read pipeline: keep the documents the filter matches, in input
/// order; sort them stably when the sort spec has keys; drop `skip` leading
/// documents and keep at most `limit` (zero meaning unbounded); project each
/// survivor. The input collection is never changed.
#[verifier::loop_isolation(false)]
pub fn find(
    data: &Vec<Value>,
    query: &Value,
    sort: &Value,
    projection: &Value,
    limit: usize,
    skip: usize,
) -> (r: Vec<Value>)
    requires
        all_wf(views_of(data@)),
        wf(view_of(*query)),
    ensures
        views_of(r@) == spec_find(
            views_of(data@),
            view_of(*query),
            view_of(*sort),
            view_of(*projection),
            limit as int,
            skip as int,
        ),
{
    let ghost dv = views_of(data@);
    let ghost qv = view_of(*query);
    let ghost matched = spec_filter(dv, qv);
    let results = filter_docs(data, query);
    let sorted = match sort {
        Value::Obj(ks) => {
            if ks.len() > 0 {
                sort_docs(results, ks)
            } else {
                results
            }
        },
        _ => {
            proof {
                lemma_view_shape(*sort);
            }
            results
        },
    };
    let ghost sv = views_of(sorted@);
    proof {
        assert(sv == spec_sorted(matched, view_of(*sort)));
    }
    let total = sorted.len();
    let mut page: Vec<Value> = Vec::new();
    if skip < total {
        let end = if limit > 0 && limit < total - skip {
            skip + limit
        } else {
            total
        };
        let mut k: usize = skip;
        proof {
            assert(views_of(page@) =~= sv.subrange(skip as int, skip as int));
        }
        while k < end
            invariant
                skip <= k <= end <= sorted@.len(),
                views_of(page@) == sv.subrange(skip as int, k as int),
            decreases end - k,
        {
            let ghost before = views_of(page@);
            let d = crate::value::clone_value(&sorted[k]);
            page.push(d);
            proof {
                assert(sv[k as int] == view_of(sorted@[k as int]));
                assert(views_of(page@) =~= before.push(sv[k as int]));
                assert(views_of(page@) =~= sv.subrange(skip as int, k as int + 1));
            }
            k = k + 1;
        }
        proof {
            assert(views_of(page@) == paginate(sv, limit as int, skip as int));
        }
    }
    proof {
        assert(views_of(page@) =~= paginate(sv, limit as int, skip as int));
    }
    let ghost paged = paginate(sv, limit as int, skip as int);
    let mut out: Vec<Value> = Vec::new();
    let mut k: usize = 0;
    while k < page.len()
        invariant
            k <= page@.len(),
            out@.len() == k,
            forall|m: int|
                0 <= m < k ==> views_of(out@)[m] == spec_project(
                    paged[m],
                    view_of(*projection),
                ),
        decreases page@.len() - k,
    {
        let ghost before = views_of(out@);
        let p = apply_projection(&page[k], projection);
        out.push(p);
        proof {
            assert(paged[k as int] == view_of(page@[k as int]));
            assert(views_of(out@) =~= before.push(spec_project(
                paged[k as int],
                view_of(*projection),
            )));
        }
        k = k + 1;
    }
    proof {
        let f = |d: SpecValue| spec_project(d, view_of(*projection));
        assert forall|m: int| 0 <= m < paged.len() implies paged.map_values(f)[m] == views_of(
            out@,
        )[m] by {
            assert(paged.map_values(f)[m] == f(paged[m]));
        }
        assert(views_of(out@) =~= paged.map_values(f));
    }
    out
}

/// Counts the documents that satisfy the filter; nothing is sorted,
/// paginated, or projected.
#[verifier::loop_isolation(false)]
pub fn count(data: &Vec<Value>, query: &Value) -> (n: usize)
    requires
        all_wf(views_of(data@)),
        wf(view_of(*query)),
    ensures
        n == spec_filter(views_of(data@), view_of(*query)).len(),
{
    let ghost dv = views_of(data@);
    let ghost qv = view_of(*query);
    let mut n: usize = 0;
    proof {
        reveal(Seq::filter);
        assert(dv.take(0).len() == 0);
    }
    let mut i: usize = 0;
    while i < data.len()
        invariant
            i <= data@.len(),
            n <= i,
            n == spec_filter(dv.take(i as int), qv).len(),
        decreases data@.len() - i,
    {
        proof {
            assert(dv[i as int] == view_of(data@[i as int]));
            assert(wf(dv[i as int]));
            reveal(Seq::filter);
            assert(dv.take(i as int + 1).drop_last() =~= dv.take(i as int));
            assert(dv.take(i as int + 1).last() == dv[i as int]);
        }
        if matches_query(&data[i], query) {
            n = n + 1;
        }
        i = i + 1;
    }
    proof {
        assert(dv.take(data@.len() as int) =~= dv);
    }
    n
}

// ----------------------------------------------------------------------
// Write pipeline: merge-update and delete
// ----------------------------------------------------------------------

/// One field set into an object's entries: overwritten in place when the
/// name exists, appended otherwise.
pub open spec fn set_field(
    es: Seq<(Seq<char>, SpecValue)>,
    key: Seq<char>,
    v: SpecValue,
) -> Seq<(Seq<char>, SpecValue)> {
    if obj_has_key(es, key) {
        es.update(key_index(es, key), (key, v))
    } else {
        es.push((key, v))
    }
}

/// A patch merged into an object's entries, key by key, in patch order;
/// the key `_id` is never applied.
pub open spec fn merge_entries(
    es: Seq<(Seq<char>, SpecValue)>,
    patch: Seq<(Seq<char>, SpecValue)>,
) -> Seq<(Seq<char>, SpecValue)>
    decreases patch.len(),
{
    if patch.len() == 0 {
        es
    } else {
        let once = if patch[0].0 == "_id"@ {
            es
        } else {
            set_field(es, patch[0].0, patch[0].1)
        };
        merge_entries(once, patch.drop_first())
    }
}

/// A patch merged into one document; only an object document under an object
/// patch changes.
pub open spec fn spec_merge(doc: SpecValue, patch: SpecValue) -> SpecValue {
    match (doc, patch) {
        (SpecValue::Obj(ds), SpecValue::Obj(ps)) => SpecValue::Obj(merge_entries(ds, ps)),
        _ => doc,
    }
}

/// The whole collection after an update: matched documents merged with the
/// patch, the rest unchanged, in input order.
pub open spec fn spec_update(
    data: Seq<SpecValue>,
    query: SpecValue,
    patch: SpecValue,
) -> Seq<SpecValue> {
    data.map_values(
        |d: SpecValue|
            if spec_matches(d, query) {
                spec_merge(d, patch)
            } else {
                d
            },
    )
}

/// The collection after a delete: exactly the documents the filter does not
/// match, in input order.
pub open spec fn spec_delete(data: Seq<SpecValue>, query: SpecValue) -> Seq<SpecValue> {
    data.filter(|d: SpecValue| !spec_matches(d, query))
}

/// Merges a patch into one document: each patch field overwrites the
/// document's field of that name or is appended, except `_id`, which is
/// never applied.
#[verifier::loop_isolation(false)]
fn merge_doc(doc: &Value, patch: &Value) -> (r: Value)
    ensures
        view_of(r) == spec_merge(view_of(*doc), view_of(*patch)),
{
    match (doc, patch) {
        (Value::Obj(_ds), Value::Obj(ps)) => {
            let ghost psv = entry_views_of(ps@);
            let merged = crate::value::clone_value(doc);
            let mut es: Vec<(String, Value)> = match merged {
                Value::Obj(entries) => entries,
                _ => Vec::new(),
            };
            let ghost dsv = entry_views_of(es@);
            let mut k: usize = 0;
            proof {
                assert(psv.skip(0) =~= psv);
            }
            while k < ps.len()
                invariant
                    k <= ps@.len(),
                    merge_entries(dsv, psv) == merge_entries(
                        entry_views_of(es@),
                        psv.skip(k as int),
                    ),
                decreases ps@.len() - k,
            {
                let ghost cur = entry_views_of(es@);
                proof {
                    assert(psv[k as int] == (ps@[k as int].0@, view_of(ps@[k as int].1)));
                    assert(psv.skip(k as int)[0] == psv[k as int]);
                    assert(psv.skip(k as int).drop_first() =~= psv.skip(k as int + 1));
                }
                if !crate::text::str_eq(ps[k].0.as_str(), "_id") {
                    let key = ps[k].0.clone();
                    let v = crate::value::clone_value(&ps[k].1);
                    match crate::value::find_key(&es, ps[k].0.as_str()) {
                        Some(j) => {
                            proof {
                                lemma_key_index(cur, psv[k as int].0);
                            }
                            es[j] = (key, v);
                            proof {
                                assert(entry_views_of(es@) =~= cur.update(
                                    j as int,
                                    (psv[k as int].0, psv[k as int].1),
                                ));
                            }
                        },
                        None => {
                            es.push((key, v));
                            proof {
                                assert(entry_views_of(es@) =~= cur.push(
                                    (psv[k as int].0, psv[k as int].1),
                                ));
                            }
                        },
                    }
                    proof {
                        assert(entry_views_of(es@) =~= set_field(
                            cur,
                            psv[k as int].0,
                            psv[k as int].1,
                        ));
                    }
                }
                k = k + 1;
            }
            proof {
                assert(psv.skip(psv.len() as int) =~= Seq::<(Seq<char>, SpecValue)>::empty());
            }
            Value::Obj(es)
        },
        _ => {
            proof {
                lemma_view_shape(*doc);
                lemma_view_shape(*patch);
            }
            crate::value::clone_value(doc)
        },
    }
}

/// Applies a merge-update: every document the filter matches has the patch
/// merged into it (`_id` excepted); unmatched documents pass through. The
/// whole collection is returned, in input order.
#[verifier::loop_isolation(false)]
pub fn update(data: &Vec<Value>, query: &Value, patch: &Value) -> (r: Vec<Value>)
    requires
        all_wf(views_of(data@)),
        wf(view_of(*query)),
    ensures
        views_of(r@) == spec_update(views_of(data@), view_of(*query), view_of(*patch)),
{
    let ghost dv = views_of(data@);
    let ghost qv = view_of(*query);
    let ghost pv = view_of(*patch);
    let mut out: Vec<Value> = Vec::new();
    let mut i: usize = 0;
    while i < data.len()
        invariant
            i <= data@.len(),
            out@.len() == i,
            forall|m: int|
                0 <= m < i ==> views_of(out@)[m] == (if spec_matches(dv[m], qv) {
                    spec_merge(dv[m], pv)
                } else {
                    dv[m]
                }),
        decreases data@.len() - i,
    {
        proof {
            assert(dv[i as int] == view_of(data@[i as int]));
            assert(wf(dv[i as int]));
        }
        let ghost before = views_of(out@);
        if matches_query(&data[i], query) {
            let merged = merge_doc(&data[i], patch);
            out.push(merged);
        } else {
            let d = crate::value::clone_value(&data[i]);
            out.push(d);
        }
        proof {
            assert(views_of(out@) =~= before.push(views_of(out@).last()));
        }
        i = i + 1;
    }
    proof {
        let f = |d: SpecValue|
            if spec_matches(d, qv) {
                spec_merge(d, pv)
            } else {
                d
            };
        assert forall|m: int| 0 <= m < dv.len() implies dv.map_values(f)[m] == views_of(
            out@,
        )[m] by {
            assert(dv.map_values(f)[m] == f(dv[m]));
        }
        assert(views_of(out@) =~= dv.map_values(f));
    }
    out
}

/// Deletes the documents the filter matches: returns the collection with
/// exactly those removed, survivors in input order.
#[verifier::loop_isolation(false)]
pub fn delete(data: &Vec<Value>, query: &Value) -> (r: Vec<Value>)
    requires
        all_wf(views_of(data@)),
        wf(view_of(*query)),
    ensures
        views_of(r@) == spec_delete(views_of(data@), view_of(*query)),
{
    let ghost dv = views_of(data@);
    let ghost qv = view_of(*query);
    let mut out: Vec<Value> = Vec::new();
    proof {
        reveal(Seq::filter);
        assert(dv.take(0).len() == 0);
        assert(views_of(out@) =~= spec_delete(dv.take(0), qv));
    }
    let mut i: usize = 0;
    while i < data.len()
        invariant
            i <= data@.len(),
            views_of(out@) == spec_delete(dv.take(i as int), qv),
        decreases data@.len() - i,
    {
        proof {
            assert(dv[i as int] == view_of(data@[i as int]));
            assert(wf(dv[i as int]));
        }
        let ghost before = views_of(out@);
        if !matches_query(&data[i], query) {
            let d = crate::value::clone_value(&data[i]);
            out.push(d);
            proof {
                assert(views_of(out@) =~= before.push(dv[i as int]));
            }
        }
        proof {
            reveal(Seq::filter);
            assert(dv.take(i as int + 1).drop_last() =~= dv.take(i as int));
            assert(dv.take(i as int + 1).last() == dv[i as int]);
        }
        i = i + 1;
    }
    proof {
        assert(dv.take(data@.len() as int) =~= dv);
    }
    out
}

} // verus!
