//! Laws of the pipeline, each proved once and for all inputs: filtering is
//! idempotent, an empty projection is the identity, projection and update
//! both preserve `_id`, a skip past the end yields nothing, and sorting is
//! stable.

use crate::engine::{
    doc_cmp, id_excluded, insert_sorted, merge_entries, paginate, proj_entries, set_field,
    spec_filter, spec_find, spec_matches, spec_merge, spec_project, spec_sorted, stable_sort,
};
use crate::text::{bytes_cmp, flip, Cmp};
use crate::value::{field_of, key_index, lemma_key_index, obj_get, obj_has_key, SpecValue};
use vstd::prelude::*;

verus! {

broadcast use vstd::seq_lib::group_filter_ensures;

/// A sequence whose every element passes a predicate is left whole by
/// filtering with it.
proof fn lemma_filter_all(s: Seq<SpecValue>, pred: spec_fn(SpecValue) -> bool)
    requires
        forall|i: int| 0 <= i < s.len() ==> pred(#[trigger] s[i]),
    ensures
        s.filter(pred) == s,
    decreases s.len(),
{
    reveal(Seq::filter);
    if s.len() > 0 {
        lemma_filter_all(s.drop_last(), pred);
    }
    assert(s.filter(pred) =~= s);
}

/// Filtering is idempotent: filtering an already-filtered collection with the
/// same filter changes nothing.
pub proof fn lemma_filter_idempotent(data: Seq<SpecValue>, query: SpecValue)
    ensures
        spec_filter(spec_filter(data, query), query) == spec_filter(data, query),
{
    let pred = |d: SpecValue| spec_matches(d, query);
    let once = data.filter(pred);
    assert forall|i: int| 0 <= i < once.len() implies pred(#[trigger] once[i]) by {
        data.lemma_filter_pred(pred, i);
    }
    lemma_filter_all(once, pred);
}

/// Projecting through an empty projection returns the document unchanged.
pub proof fn lemma_projection_identity(doc: SpecValue)
    ensures
        spec_project(doc, SpecValue::Obj(Seq::empty())) == doc,
{
}

/// Inserting a document keeps one more than were there.
proof fn lemma_insert_sorted_len(
    t: Seq<SpecValue>,
    v: SpecValue,
    keys: Seq<(Seq<char>, SpecValue)>,
)
    ensures
        insert_sorted(t, v, keys).len() == t.len() + 1,
    decreases t.len(),
{
    if t.len() > 0 && doc_cmp(t.last(), v, keys) == Cmp::Greater {
        lemma_insert_sorted_len(t.drop_last(), v, keys);
    }
}

/// Sorting keeps the collection's size.
pub proof fn lemma_stable_sort_len(s: Seq<SpecValue>, keys: Seq<(Seq<char>, SpecValue)>)
    ensures
        stable_sort(s, keys).len() == s.len(),
    decreases s.len(),
{
    if s.len() > 0 {
        lemma_stable_sort_len(s.drop_last(), keys);
        lemma_insert_sorted_len(stable_sort(s.drop_last(), keys), s.last(), keys);
    }
}

/// The sort stage keeps the collection's size whatever the sort spec is.
proof fn lemma_sorted_len(matched: Seq<SpecValue>, sort: SpecValue)
    ensures
        spec_sorted(matched, sort).len() == matched.len(),
{
    match sort {
        SpecValue::Obj(ks) => {
            if ks.len() > 0 {
                lemma_stable_sort_len(matched, ks);
            }
        },
        _ => {},
    }
}

/// A skip at or past the collection's size yields an empty result, whatever
/// the filter, sort spec, projection and limit are.
pub proof fn lemma_pagination_bound(
    data: Seq<SpecValue>,
    query: SpecValue,
    sort: SpecValue,
    proj: SpecValue,
    limit: int,
    skip: int,
)
    requires
        skip >= data.len(),
    ensures
        spec_find(data, query, sort, proj, limit, skip).len() == 0,
{
    let pred = |d: SpecValue| spec_matches(d, query);
    data.lemma_filter_len(pred);
    lemma_sorted_len(spec_filter(data, query), sort);
    assert(paginate(spec_sorted(spec_filter(data, query), sort), limit, skip).len() == 0);
}

// ----------------------------------------------------------------------
// `_id` preservation
// ----------------------------------------------------------------------

/// Two entry sequences with the same names at every position index their keys
/// alike.
proof fn lemma_key_index_same_keys(
    es1: Seq<(Seq<char>, SpecValue)>,
    es2: Seq<(Seq<char>, SpecValue)>,
    key: Seq<char>,
)
    requires
        es1.len() == es2.len(),
        forall|j: int| 0 <= j < es1.len() ==> (#[trigger] es1[j]).0 == es2[j].0,
    ensures
        key_index(es1, key) == key_index(es2, key),
    decreases es1.len(),
{
    if es1.len() > 0 {
        assert(es1[0].0 == es2[0].0);
        lemma_key_index_same_keys(es1.drop_first(), es2.drop_first(), key);
    }
}

/// Appending an entry with another name leaves a key's lookup unchanged.
proof fn lemma_obj_get_push_other(
    es: Seq<(Seq<char>, SpecValue)>,
    e: (Seq<char>, SpecValue),
    key: Seq<char>,
)
    requires
        e.0 != key,
    ensures
        obj_get(es.push(e), key) == obj_get(es, key),
{
    lemma_key_index(es, key);
    lemma_key_index(es.push(e), key);
    if key_index(es, key) >= 0 {
        crate::value::lemma_key_index_at(es.push(e), key, key_index(es, key));
    } else {
        assert forall|j: int| 0 <= j < es.push(e).len() implies (#[trigger] es.push(e)[j]).0
            != key by {
            if j < es.len() {
                assert(es.push(e)[j] == es[j]);
            }
        }
        if key_index(es.push(e), key) >= 0 {
            assert((es.push(e)[key_index(es.push(e), key)]).0 == key);
        }
    }
}

/// Setting one field leaves every other field's lookup unchanged.
proof fn lemma_set_field_other(
    es: Seq<(Seq<char>, SpecValue)>,
    key: Seq<char>,
    v: SpecValue,
    other: Seq<char>,
)
    requires
        key != other,
    ensures
        obj_get(set_field(es, key, v), other) == obj_get(es, other),
{
    lemma_key_index(es, key);
    if obj_has_key(es, key) {
        let i = key_index(es, key);
        let es2 = es.update(i, (key, v));
        assert(forall|j: int| 0 <= j < es.len() ==> (#[trigger] es2[j]).0 == es[j].0);
        lemma_key_index_same_keys(es2, es, other);
        lemma_key_index(es, other);
        lemma_key_index(es2, other);
        if key_index(es, other) >= 0 {
            assert(es[key_index(es, other)].0 == other);
            assert(key_index(es, other) != i);
        }
    } else {
        lemma_obj_get_push_other(es, (key, v), other);
    }
}

/// Merging a patch never touches `_id`.
proof fn lemma_merge_entries_id(
    es: Seq<(Seq<char>, SpecValue)>,
    patch: Seq<(Seq<char>, SpecValue)>,
)
    ensures
        obj_get(merge_entries(es, patch), "_id"@) == obj_get(es, "_id"@),
    decreases patch.len(),
{
    if patch.len() > 0 {
        let once = if patch[0].0 == "_id"@ {
            es
        } else {
            set_field(es, patch[0].0, patch[0].1)
        };
        if patch[0].0 != "_id"@ {
            lemma_set_field_other(es, patch[0].0, patch[0].1, "_id"@);
        }
        lemma_merge_entries_id(once, patch.drop_first());
    }
}

/// Update immutability: whatever the patch holds — even an `_id` of its own —
/// the merged document's `_id` field is the document's `_id` field.
pub proof fn lemma_update_preserves_id(doc: SpecValue, patch: SpecValue)
    ensures
        field_of(spec_merge(doc, patch), "_id"@) == field_of(doc, "_id"@),
{
    match (doc, patch) {
        (SpecValue::Obj(ds), SpecValue::Obj(ps)) => {
            lemma_merge_entries_id(ds, ps);
        },
        _ => {},
    }
}

/// Every entry an explicit projection keeps carries the source document's
/// value for its name.
proof fn lemma_proj_entries_values(
    ds: Seq<(Seq<char>, SpecValue)>,
    ps: Seq<(Seq<char>, SpecValue)>,
)
    ensures
        forall|i: int|
            0 <= i < proj_entries(ds, ps).len() ==> {
                &&& obj_has_key(ds, (#[trigger] proj_entries(ds, ps)[i]).0)
                &&& proj_entries(ds, ps)[i].1 == ds[key_index(ds, proj_entries(ds, ps)[i].0)].1
            },
    decreases ps.len(),
{
    if ps.len() > 0 {
        lemma_proj_entries_values(ds, ps.drop_first());
        let rest = proj_entries(ds, ps.drop_first());
        if crate::engine::truthy(ps[0].1) && obj_has_key(ds, ps[0].0) {
            let e = (ps[0].0, ds[key_index(ds, ps[0].0)].1);
            assert forall|i: int| 0 <= i < proj_entries(ds, ps).len() implies {
                &&& obj_has_key(ds, (#[trigger] proj_entries(ds, ps)[i]).0)
                &&& proj_entries(ds, ps)[i].1 == ds[key_index(ds, proj_entries(ds, ps)[i].0)].1
            } by {
                if i > 0 {
                    assert(proj_entries(ds, ps)[i] == rest[i - 1]);
                }
            }
        }
    }
}

/// `_id` preservation: projecting a document that holds `_id` through a
/// projection that does not explicitly exclude it keeps `_id` unchanged.
pub proof fn lemma_projection_preserves_id(doc: SpecValue, proj: SpecValue)
    requires
        doc matches SpecValue::Obj(ds) && obj_has_key(ds, "_id"@),
        !(proj matches SpecValue::Obj(ps) && id_excluded(ps)),
    ensures
        field_of(spec_project(doc, proj), "_id"@) == field_of(doc, "_id"@),
{
    let ds = doc->Obj_0;
    lemma_key_index(ds, "_id"@);
    match proj {
        SpecValue::Obj(ps) => {
            if ps.len() > 0 {
                let base = proj_entries(ds, ps);
                lemma_key_index(base, "_id"@);
                lemma_proj_entries_values(ds, ps);
                if obj_has_key(base, "_id"@) {
                    assert(base[key_index(base, "_id"@)].0 == "_id"@);
                } else {
                    let e = ("_id"@, ds[key_index(ds, "_id"@)].1);
                    lemma_key_index(base.push(e), "_id"@);
                    crate::value::lemma_key_index_at(base.push(e), "_id"@, base.len() as int);
                }
            }
        },
        _ => {},
    }
}

// ----------------------------------------------------------------------
// Sort stability
// ----------------------------------------------------------------------

/// Swapping the operands of a byte comparison flips its outcome.
proof fn lemma_bytes_cmp_flip(a: Seq<u8>, b: Seq<u8>)
    ensures
        bytes_cmp(b, a) == flip(bytes_cmp(a, b)),
    decreases a.len(),
{
    if a.len() > 0 && b.len() > 0 && a[0] == b[0] {
        lemma_bytes_cmp_flip(a.drop_first(), b.drop_first());
    }
}

/// Swapping the operands of a value comparison flips its outcome.
proof fn lemma_compare_flip(a: SpecValue, b: SpecValue)
    ensures
        crate::engine::spec_compare(b, a) == flip(crate::engine::spec_compare(a, b)),
{
    match (a, b) {
        (SpecValue::Str(x), SpecValue::Str(y)) => {
            lemma_bytes_cmp_flip(
                vstd::utf8::encode_utf8(x),
                vstd::utf8::encode_utf8(y),
            );
        },
        _ => {},
    }
}

/// Swapping the operands of a document comparison flips its outcome.
proof fn lemma_doc_cmp_flip(a: SpecValue, b: SpecValue, keys: Seq<(Seq<char>, SpecValue)>)
    ensures
        doc_cmp(b, a, keys) == flip(doc_cmp(a, b, keys)),
    decreases keys.len(),
{
    if keys.len() > 0 {
        lemma_compare_flip(field_of(a, keys[0].0), field_of(b, keys[0].0));
        lemma_doc_cmp_flip(a, b, keys.drop_first());
    }
}

/// The position at which `insert_sorted` places a new document: right before
/// the strictly greater tail.
pub open spec fn insert_position(
    t: Seq<SpecValue>,
    v: SpecValue,
    keys: Seq<(Seq<char>, SpecValue)>,
) -> int
    decreases t.len(),
{
    if t.len() == 0 {
        0
    } else if doc_cmp(t.last(), v, keys) == Cmp::Greater {
        insert_position(t.drop_last(), v, keys)
    } else {
        t.len() as int
    }
}

/// What `insert_sorted` builds: the documents up to the insert position, the
/// new one, then the strictly greater tail.
proof fn lemma_insert_shape(t: Seq<SpecValue>, v: SpecValue, keys: Seq<(Seq<char>, SpecValue)>)
    ensures
        0 <= insert_position(t, v, keys) <= t.len(),
        insert_sorted(t, v, keys) == t.take(insert_position(t, v, keys)).push(v) + t.skip(
            insert_position(t, v, keys),
        ),
        forall|j: int|
            insert_position(t, v, keys) <= j < t.len() ==> doc_cmp(#[trigger] t[j], v, keys)
                == Cmp::Greater,
    decreases t.len(),
{
    let p = insert_position(t, v, keys);
    if t.len() == 0 {
        assert(insert_sorted(t, v, keys) =~= t.take(0).push(v) + t.skip(0));
    } else if doc_cmp(t.last(), v, keys) == Cmp::Greater {
        lemma_insert_shape(t.drop_last(), v, keys);
        assert(t.drop_last().take(p) =~= t.take(p));
        assert(insert_sorted(t, v, keys) =~= t.take(p).push(v) + t.skip(p));
        assert forall|j: int| p <= j < t.len() implies doc_cmp(#[trigger] t[j], v, keys)
            == Cmp::Greater by {
            if j < t.len() - 1 {
                assert(t[j] == t.drop_last()[j]);
            }
        }
    } else {
        assert(insert_sorted(t, v, keys) =~= t.take(p).push(v) + t.skip(p));
    }
}

/// How a sorted sequence `t` arises from its input `s`: `idx` maps positions
/// of `t` to distinct positions of `s` holding the same documents, and on
/// documents whose sort keys tie the map is increasing — ties keep input
/// order.
pub open spec fn sort_witness(
    s: Seq<SpecValue>,
    t: Seq<SpecValue>,
    idx: Seq<int>,
    keys: Seq<(Seq<char>, SpecValue)>,
) -> bool {
    &&& t.len() == s.len()
    &&& idx.len() == t.len()
    &&& forall|k: int| 0 <= k < idx.len() ==> 0 <= #[trigger] idx[k] < s.len() && t[k] == s[idx[k]]
    &&& forall|k1: int, k2: int| 0 <= k1 < k2 < idx.len() ==> #[trigger] idx[k1] != #[trigger] idx[k2]
    &&& forall|k1: int, k2: int|
        0 <= k1 < k2 < idx.len() && doc_cmp(t[k1], t[k2], keys) == Cmp::Equal ==> #[trigger] idx[k1]
            < #[trigger] idx[k2]
}

/// Sort stability: the sorted collection is a rearrangement of the input in
/// which documents with equal sort keys keep their relative input order.
pub proof fn lemma_sort_stable(s: Seq<SpecValue>, keys: Seq<(Seq<char>, SpecValue)>)
    ensures
        exists|idx: Seq<int>| sort_witness(s, stable_sort(s, keys), idx, keys),
    decreases s.len(),
{
    let t = stable_sort(s, keys);
    if s.len() == 0 {
        let idx = Seq::<int>::empty();
        assert(sort_witness(s, t, idx, keys));
    } else {
        let n = s.len() as int;
        let s0 = s.drop_last();
        let v = s.last();
        lemma_sort_stable(s0, keys);
        let t0 = stable_sort(s0, keys);
        let idx0 = choose|idx0: Seq<int>| sort_witness(s0, t0, idx0, keys);
        lemma_insert_shape(t0, v, keys);
        let p = insert_position(t0, v, keys);
        let idx = idx0.take(p).push(n - 1) + idx0.skip(p);
        assert(t == t0.take(p).push(v) + t0.skip(p));
        assert(t.len() == n);
        assert(idx.len() == n);
        assert forall|k: int| 0 <= k < n implies {
            &&& (k < p ==> t[k] == t0[k] && #[trigger] idx[k] == idx0[k])
            &&& (k == p ==> t[k] == v && idx[k] == n - 1)
            &&& (k > p ==> t[k] == t0[k - 1] && idx[k] == idx0[k - 1])
        } by {
            if k < p {
                assert(t[k] == (t0.take(p).push(v))[k]);
                assert(idx[k] == (idx0.take(p).push(n - 1))[k]);
            } else if k == p {
                assert(t[k] == (t0.take(p).push(v))[k]);
                assert(idx[k] == (idx0.take(p).push(n - 1))[k]);
            } else {
                assert(t[k] == t0.skip(p)[k - p - 1]);
                assert(idx[k] == idx0.skip(p)[k - p - 1]);
            }
        }
        assert forall|k: int| 0 <= k < idx.len() implies 0 <= #[trigger] idx[k] < s.len() && t[k]
            == s[idx[k]] by {
            if k < p {
                assert(t0[k] == s0[idx0[k]]);
                assert(s0[idx0[k]] == s[idx0[k]]);
            } else if k == p {
                assert(s[n - 1] == v);
            } else {
                assert(t0[k - 1] == s0[idx0[k - 1]]);
                assert(s0[idx0[k - 1]] == s[idx0[k - 1]]);
            }
        }
        assert forall|k1: int, k2: int| 0 <= k1 < k2 < idx.len() implies #[trigger] idx[k1]
            != #[trigger] idx[k2] by {
            if k1 < p && k2 < p {
            } else if k1 < p && k2 == p {
                assert(idx0[k1] < s0.len());
            } else if k1 == p {
                assert(idx0[k2 - 1] < s0.len());
            } else if k1 > p || k2 > p {
                if k1 < p {
                    assert(idx[k1] == idx0[k1]);
                    assert(idx[k2] == idx0[k2 - 1]);
                    assert(k1 < k2 - 1);
                }
            }
        }
        assert forall|k1: int, k2: int|
            0 <= k1 < k2 < idx.len() && doc_cmp(t[k1], t[k2], keys) == Cmp::Equal implies #[trigger] idx[k1]
            < #[trigger] idx[k2] by {
            if k2 < p {
                assert(doc_cmp(t0[k1], t0[k2], keys) == Cmp::Equal);
            } else if k1 < p && k2 == p {
                assert(idx0[k1] < s0.len());
            } else if k1 == p && k2 > p {
                assert(doc_cmp(t0[k2 - 1], v, keys) == Cmp::Greater);
                lemma_doc_cmp_flip(v, t0[k2 - 1], keys);
                assert(doc_cmp(v, t0[k2 - 1], keys) == Cmp::Less);
                assert(false);
            } else if k1 < p && k2 > p {
                assert(k1 < k2 - 1);
                assert(doc_cmp(t0[k1], t0[k2 - 1], keys) == Cmp::Equal);
            } else {
                assert(p < k1 < k2);
                assert(doc_cmp(t0[k1 - 1], t0[k2 - 1], keys) == Cmp::Equal);
            }
        }
        assert(sort_witness(s, t, idx, keys));
    }
}

} // verus!
