//! How large the counters of a shape can grow: every counter is at most the
//! number of JSON values that went into the shape, so an input of at most
//! `u64::MAX` values can be inferred without overflow.

use vstd::prelude::*;

use crate::json::JsonValue;
use crate::lemmas::lemma_key_pos;
use crate::positions::distinct_names;
use crate::shape::{
    absorbed, absorbed_all, absorbed_members, empty_view, fits, has_key, key_pos, merged, merged_fields,
    keys_distinct, object_opened, FieldView, ObjectView, Shape, ShapeView,
};
use crate::{infer_from_values, inferred, samples_of};

verus! {

// ---------------------------------------------------------------------------
// The size of JSON input
// ---------------------------------------------------------------------------

/// How many JSON values `v` holds, itself included.
pub open spec fn json_size(v: JsonValue) -> nat
    decreases v,
{
    match v {
        JsonValue::Array(items) => 1 + json_sizes(items@),
        JsonValue::Object(entries) => 1 + member_sizes(entries@),
        _ => 1,
    }
}

/// How many JSON values the items hold, in all.
pub open spec fn json_sizes(items: Seq<JsonValue>) -> nat
    decreases items,
{
    if items.len() == 0 {
        0
    } else {
        json_sizes(items.subrange(0, items.len() - 1)) + json_size(items[items.len() - 1])
    }
}

/// How many JSON values the member values of an object hold, in all.
pub open spec fn member_sizes(entries: Seq<(String, JsonValue)>) -> nat
    decreases entries,
{
    if entries.len() == 0 {
        0
    } else {
        member_sizes(entries.subrange(0, entries.len() - 1)) + json_size(entries[entries.len() - 1].1)
    }
}

/// A longer prefix of items holds at least as many values.
pub proof fn lemma_sizes_prefix(items: Seq<JsonValue>, i: int, j: int)
    requires
        0 <= i <= j <= items.len(),
    ensures
        json_sizes(items.subrange(0, i)) <= json_sizes(items.subrange(0, j)),
    decreases j - i,
{
    if i < j {
        lemma_sizes_prefix(items, i, j - 1);
        let pj = items.subrange(0, j);
        assert(pj.subrange(0, j - 1) =~= items.subrange(0, j - 1));
    }
}

/// A longer prefix of members holds at least as many values.
pub proof fn lemma_member_sizes_prefix(entries: Seq<(String, JsonValue)>, i: int, j: int)
    requires
        0 <= i <= j <= entries.len(),
    ensures
        member_sizes(entries.subrange(0, i)) <= member_sizes(entries.subrange(0, j)),
    decreases j - i,
{
    if i < j {
        lemma_member_sizes_prefix(entries, i, j - 1);
        let pj = entries.subrange(0, j);
        assert(pj.subrange(0, j - 1) =~= entries.subrange(0, j - 1));
    }
}

// ---------------------------------------------------------------------------
// Counter bounds
// ---------------------------------------------------------------------------

/// Every counter of the shape is at most `k`.
pub open spec fn bounded(s: ShapeView, k: nat) -> bool
    decreases s,
{
    &&& (s.object matches Some(o) ==> {
        &&& o.total <= k
        &&& forall|i: int|
            #![trigger o.fields[i]]
            0 <= i < o.fields.len() ==> {
                &&& o.fields[i].1.count <= k
                &&& bounded(o.fields[i].1.shape, k)
            }
    })
    &&& (s.array matches Some(p) ==> bounded(*p, k))
}

/// Every counter of the object shape is at most `k`.
pub open spec fn object_bounded(o: ObjectView, k: nat) -> bool {
    &&& o.total <= k
    &&& forall|i: int|
        #![trigger o.fields[i]]
        0 <= i < o.fields.len() ==> {
            &&& o.fields[i].1.count <= k
            &&& bounded(o.fields[i].1.shape, k)
        }
}

/// A bound holds of every larger number.
pub proof fn lemma_bounded_mono(s: ShapeView, k1: nat, k2: nat)
    requires
        bounded(s, k1),
        k1 <= k2,
    ensures
        bounded(s, k2),
    decreases s,
{
    if let Some(o) = s.object {
        assert forall|i: int| #![trigger o.fields[i]] 0 <= i < o.fields.len() implies bounded(o.fields[i].1.shape, k2) by {
            assert(decreases_to!(s => o.fields[i].1.shape));
            lemma_bounded_mono(o.fields[i].1.shape, k1, k2);
        }
    }
    if let Some(p) = s.array {
        lemma_bounded_mono(*p, k1, k2);
    }
}

/// Counters bounded by the largest `u64` fit in a `u64`.
pub proof fn lemma_bounded_fits(s: ShapeView)
    requires
        bounded(s, u64::MAX as nat),
    ensures
        fits(s),
    decreases s,
{
    if let Some(o) = s.object {
        assert forall|i: int| #![trigger o.fields[i]] 0 <= i < o.fields.len() implies fits(o.fields[i].1.shape) by {
            assert(decreases_to!(s => o.fields[i].1.shape));
            lemma_bounded_fits(o.fields[i].1.shape);
        }
    }
    if let Some(p) = s.array {
        lemma_bounded_fits(*p);
    }
}

/// Observing `v` raises no counter by more than the number of values in `v`.
pub proof fn lemma_absorbed_bounded(s: ShapeView, v: JsonValue, k: nat)
    requires
        bounded(s, k),
    ensures
        bounded(absorbed(s, v), k + json_size(v)),
    decreases v,
{
    lemma_bounded_mono(s, k, k + json_size(v));
    match v {
        JsonValue::Array(items) => {
            let inner = if s.array is Some { *s.array->0 } else { empty_view() };
            lemma_absorbed_all_bounded(inner, items@, k);
            lemma_bounded_mono(absorbed_all(inner, items@), k + json_sizes(items@), k + json_size(v));
        },
        JsonValue::Object(entries) => {
            let o = object_opened(s);
            assert forall|i: int| #![trigger o.fields[i]] 0 <= i < o.fields.len() implies bounded(
                o.fields[i].1.shape,
                k + 1,
            ) by {
                lemma_bounded_mono(o.fields[i].1.shape, k, k + 1);
            }
            assert(object_bounded(o, k + 1));
            lemma_members_bounded(o, entries@, k + 1);
        },
        _ => {},
    }
}

/// Observing several values raises no counter by more than the number of values in them.
pub proof fn lemma_absorbed_all_bounded(s: ShapeView, items: Seq<JsonValue>, k: nat)
    requires
        bounded(s, k),
    ensures
        bounded(absorbed_all(s, items), k + json_sizes(items)),
    decreases items,
{
    if items.len() > 0 {
        let p = items.subrange(0, items.len() - 1);
        lemma_absorbed_all_bounded(s, p, k);
        lemma_absorbed_bounded(absorbed_all(s, p), items[items.len() - 1], k + json_sizes(p));
    }
}

/// Observing an object's members raises no counter by more than the number of values in them.
pub proof fn lemma_members_bounded(o: ObjectView, es: Seq<(String, JsonValue)>, k: nat)
    requires
        object_bounded(o, k),
    ensures
        object_bounded(absorbed_members(o, es), k + member_sizes(es)),
    decreases es,
{
    if es.len() > 0 {
        let n = es.len();
        let p = es.subrange(0, n - 1);
        let v = es[n - 1].1;
        let m = json_size(v);
        lemma_members_bounded(o, p, k);
        let acc = absorbed_members(o, p);
        let b = k + member_sizes(p);
        let r = absorbed_members(o, es);
        assert forall|i: int| #![trigger acc.fields[i]] 0 <= i < acc.fields.len() implies bounded(
            acc.fields[i].1.shape,
            b + m,
        ) by {
            lemma_bounded_mono(acc.fields[i].1.shape, b, b + m);
        }
        assert(m >= 1);
        let k0 = es[n - 1].0@;
        if crate::json::key_among(p, p.len() as int, k0) {
            assert(r == acc);
        } else if has_key(acc.fields, k0) {
            let i = key_pos(acc.fields, k0);
            crate::lemmas::lemma_key_pos(acc.fields, k0);
            lemma_absorbed_bounded(acc.fields[i].1.shape, v, b);
            assert forall|j: int| #![trigger r.fields[j]] 0 <= j < r.fields.len() implies {
                &&& r.fields[j].1.count <= b + m
                &&& bounded(r.fields[j].1.shape, b + m)
            } by {
                if j != i {
                    assert(r.fields[j] == acc.fields[j]);
                }
            }
        } else {
            assert(bounded(empty_view(), 0));
            lemma_absorbed_bounded(empty_view(), v, 0);
            lemma_bounded_mono(absorbed(empty_view(), v), m, b + m);
            assert forall|j: int| #![trigger r.fields[j]] 0 <= j < r.fields.len() implies {
                &&& r.fields[j].1.count <= b + m
                &&& bounded(r.fields[j].1.shape, b + m)
            } by {
                if j < acc.fields.len() {
                    assert(r.fields[j] == acc.fields[j]);
                }
            }
        }
        assert(object_bounded(r, b + m));
    }
}

/// Every counter of an inferred shape is at most the number of JSON values
/// in the input.
pub proof fn lemma_inferred_bounded(values: Seq<JsonValue>)
    ensures
        bounded(inferred(values), json_sizes(values)),
    decreases values.len(),
{
    if values.len() > 0 {
        let n = values.len();
        let p = values.subrange(0, n - 1);
        let v = values[n - 1];
        let k = json_sizes(p);
        lemma_inferred_bounded(p);
        let samples = samples_of(v);
        lemma_absorbed_all_bounded(inferred(p), samples, k);
        match v {
            JsonValue::Array(items) => {
                if !(items@.len() > 0 && crate::all_objects(items@)) {
                    assert(samples.subrange(0, 0) =~= Seq::<JsonValue>::empty());
                    assert(json_sizes(samples) == json_sizes(Seq::<JsonValue>::empty()) + json_size(samples[0]));
                } else {
                    assert(samples == items@);
                    assert(json_size(v) == 1 + json_sizes(items@));
                }
            },
            _ => {
                assert(samples.subrange(0, 0) =~= Seq::<JsonValue>::empty());
                assert(json_sizes(samples) == json_sizes(Seq::<JsonValue>::empty()) + json_size(samples[0]));
            },
        }
        assert(json_sizes(samples) <= json_size(v));
        lemma_bounded_mono(inferred(values), k + json_sizes(samples), k + json_size(v));
    }
}

/// Merging in fields `ys` with distinct names: every field ends within
/// `k1 + k2`, and a field whose name `ys` lacks keeps its bound `k1`.
pub proof fn lemma_fields_bounded(
    xs: Seq<(Seq<char>, FieldView)>,
    ys: Seq<(Seq<char>, FieldView)>,
    k1: nat,
    k2: nat,
)
    requires
        keys_distinct(ys),
        forall|i: int| #![trigger xs[i]] 0 <= i < xs.len() ==> xs[i].1.count <= k1 && bounded(xs[i].1.shape, k1),
        forall|i: int| #![trigger ys[i]] 0 <= i < ys.len() ==> ys[i].1.count <= k2 && bounded(ys[i].1.shape, k2),
        forall|x: ShapeView, i: int|
            #![trigger merged(x, ys[i].1.shape)]
            bounded(x, k1) && 0 <= i < ys.len() ==> bounded(merged(x, ys[i].1.shape), k1 + k2),
    ensures
        forall|i: int|
            #![trigger merged_fields(xs, ys)[i]]
            0 <= i < merged_fields(xs, ys).len() ==> {
                &&& merged_fields(xs, ys)[i].1.count <= k1 + k2
                &&& bounded(merged_fields(xs, ys)[i].1.shape, k1 + k2)
                &&& (!has_key(ys, merged_fields(xs, ys)[i].0) ==> merged_fields(xs, ys)[i].1.count <= k1 && bounded(
                    merged_fields(xs, ys)[i].1.shape,
                    k1,
                ))
            },
    decreases ys.len(),
{
    let r = merged_fields(xs, ys);
    if ys.len() == 0 {
        assert forall|i: int| #![trigger r[i]] 0 <= i < r.len() implies bounded(r[i].1.shape, k1 + k2) by {
            lemma_bounded_mono(xs[i].1.shape, k1, k1 + k2);
        }
    } else {
        let n = ys.len();
        let p = ys.subrange(0, n - 1);
        let y = ys[n - 1];
        assert(keys_distinct(p));
        assert forall|x: ShapeView, i: int|
            #![trigger merged(x, p[i].1.shape)]
            bounded(x, k1) && 0 <= i < p.len() implies bounded(merged(x, p[i].1.shape), k1 + k2) by {
            assert(p[i] == ys[i]);
        }
        lemma_fields_bounded(xs, p, k1, k2);
        let acc = merged_fields(xs, p);
        assert forall|k: Seq<char>| !has_key(ys, k) implies !has_key(p, k) && k != y.0 by {
            if has_key(p, k) {
                let j = choose|j: int| #![trigger p[j]] 0 <= j < p.len() && p[j].0 == k;
                assert(ys[j] == p[j]);
            }
            assert(ys[n - 1] == y);
        }
        assert(!has_key(p, y.0)) by {
            if has_key(p, y.0) {
                let j = choose|j: int| #![trigger p[j]] 0 <= j < p.len() && p[j].0 == y.0;
                assert(ys[j] == p[j]);
                assert(ys[j].0 == ys[n - 1].0);
            }
        }
        assert(has_key(ys, y.0)) by {
            assert(ys[n - 1].0 == y.0);
        }
        if has_key(acc, y.0) {
            lemma_key_pos(acc, y.0);
            let i = key_pos(acc, y.0);
            assert(acc[i].1.count <= k1 && bounded(acc[i].1.shape, k1));
            assert(bounded(merged(acc[i].1.shape, ys[n - 1].1.shape), k1 + k2));
            assert forall|j: int| #![trigger r[j]] 0 <= j < r.len() implies {
                &&& r[j].1.count <= k1 + k2
                &&& bounded(r[j].1.shape, k1 + k2)
                &&& (!has_key(ys, r[j].0) ==> r[j].1.count <= k1 && bounded(r[j].1.shape, k1))
            } by {
                if j != i {
                    assert(r[j] == acc[j]);
                }
            }
        } else {
            lemma_bounded_mono(y.1.shape, k2, k1 + k2);
            assert forall|j: int| #![trigger r[j]] 0 <= j < r.len() implies {
                &&& r[j].1.count <= k1 + k2
                &&& bounded(r[j].1.shape, k1 + k2)
                &&& (!has_key(ys, r[j].0) ==> r[j].1.count <= k1 && bounded(r[j].1.shape, k1))
            } by {
                if j < acc.len() {
                    assert(r[j] == acc[j]);
                }
            }
        }
    }
}

/// Merging into any shape one that repeats no field name adds their counter
/// bounds.
pub proof fn law_merge_bounded(a: ShapeView, b: ShapeView, k1: nat, k2: nat)
    requires
        distinct_names(b),
        bounded(a, k1),
        bounded(b, k2),
    ensures
        bounded(merged(a, b), k1 + k2),
    decreases b,
{
    lemma_bounded_mono(a, k1, k1 + k2);
    lemma_bounded_mono(b, k2, k1 + k2);
    if a.object is Some && b.object is Some {
        let x = a.object->0;
        let y = b.object->0;
        assert forall|v: ShapeView, i: int|
            #![trigger merged(v, y.fields[i].1.shape)]
            bounded(v, k1) && 0 <= i < y.fields.len() implies bounded(merged(v, y.fields[i].1.shape), k1 + k2) by {
            assert(decreases_to!(b => y.fields[i].1.shape));
            law_merge_bounded(v, y.fields[i].1.shape, k1, k2);
        }
        lemma_fields_bounded(x.fields, y.fields, k1, k2);
    }
    if a.array is Some && b.array is Some {
        law_merge_bounded(*a.array->0, *b.array->0, k1, k2);
    }
}

/// Merging into any shape one that repeats no field name cannot overflow a
/// counter when the largest counters of the two add up to at most
/// `u64::MAX`: the merged shape then [`fits`], which is what `Shape::merge`
/// requires.
pub proof fn law_merge_fits(a: ShapeView, b: ShapeView, k1: nat, k2: nat)
    requires
        distinct_names(b),
        bounded(a, k1),
        bounded(b, k2),
        k1 + k2 <= u64::MAX,
    ensures
        fits(merged(a, b)),
{
    law_merge_bounded(a, b, k1, k2);
    lemma_bounded_mono(merged(a, b), k1 + k2, u64::MAX as nat);
    lemma_bounded_fits(merged(a, b));
}

// ---------------------------------------------------------------------------
// Counting the input
// ---------------------------------------------------------------------------

/// How many JSON values `v` holds, or `None` when that is more than `u64::MAX`.
pub fn value_count(v: &JsonValue) -> (r: Option<u64>)
    ensures
        r matches Some(n) ==> n == json_size(*v),
        r is None ==> json_size(*v) > u64::MAX,
    decreases v,
{
    match v {
        JsonValue::Array(items) => match values_count(items) {
            Some(n) => n.checked_add(1),
            None => None,
        },
        JsonValue::Object(entries) => match members_count(entries) {
            Some(n) => n.checked_add(1),
            None => None,
        },
        _ => Some(1),
    }
}

/// How many JSON values the items hold, or `None` when that is more than `u64::MAX`.
pub fn values_count(items: &Vec<JsonValue>) -> (r: Option<u64>)
    ensures
        r matches Some(n) ==> n == json_sizes(items@),
        r is None ==> json_sizes(items@) > u64::MAX,
    decreases items,
{
    let n = items.len();
    let mut total: u64 = 0;
    let mut i: usize = 0;
    assert(items@.subrange(0, 0) =~= Seq::<JsonValue>::empty());
    while i < n
        invariant
            n == items@.len(),
            i <= n,
            total == json_sizes(items@.subrange(0, i as int)),
        decreases n - i,
    {
        proof {
            vstd::std_specs::vec::axiom_vec_index_decreases(*items, i as int);
        }
        let ghost cur = items@.subrange(0, i + 1);
        assert(cur.subrange(0, i as int) =~= items@.subrange(0, i as int));
        match value_count(&items[i]) {
            Some(c) => match total.checked_add(c) {
                Some(t) => {
                    total = t;
                },
                None => {
                    proof {
                        lemma_sizes_prefix(items@, i + 1, n as int);
                        assert(items@.subrange(0, n as int) =~= items@);
                    }
                    return None;
                },
            },
            None => {
                proof {
                    lemma_sizes_prefix(items@, i + 1, n as int);
                    assert(items@.subrange(0, n as int) =~= items@);
                }
                return None;
            },
        }
        i = i + 1;
    }
    assert(items@.subrange(0, n as int) =~= items@);
    Some(total)
}

/// How many JSON values the member values hold, or `None` when that is more than `u64::MAX`.
pub fn members_count(entries: &Vec<(String, JsonValue)>) -> (r: Option<u64>)
    ensures
        r matches Some(n) ==> n == member_sizes(entries@),
        r is None ==> member_sizes(entries@) > u64::MAX,
    decreases entries,
{
    let n = entries.len();
    let mut total: u64 = 0;
    let mut i: usize = 0;
    assert(entries@.subrange(0, 0) =~= Seq::<(String, JsonValue)>::empty());
    while i < n
        invariant
            n == entries@.len(),
            i <= n,
            total == member_sizes(entries@.subrange(0, i as int)),
        decreases n - i,
    {
        proof {
            vstd::std_specs::vec::axiom_vec_index_decreases(*entries, i as int);
        }
        let ghost cur = entries@.subrange(0, i + 1);
        assert(cur.subrange(0, i as int) =~= entries@.subrange(0, i as int));
        match value_count(&entries[i].1) {
            Some(c) => match total.checked_add(c) {
                Some(t) => {
                    total = t;
                },
                None => {
                    proof {
                        lemma_member_sizes_prefix(entries@, i + 1, n as int);
                        assert(entries@.subrange(0, n as int) =~= entries@);
                    }
                    return None;
                },
            },
            None => {
                proof {
                    lemma_member_sizes_prefix(entries@, i + 1, n as int);
                    assert(entries@.subrange(0, n as int) =~= entries@);
                }
                return None;
            },
        }
        i = i + 1;
    }
    assert(entries@.subrange(0, n as int) =~= entries@);
    Some(total)
}

/// [`infer_from_values`] for any input: `None` when the input holds more
/// than `u64::MAX` JSON values (too many for the 64-bit counters to be sure
/// not to overflow), else the inferred shape.
pub fn try_infer_from_values(values: Vec<JsonValue>) -> (r: Option<Shape>)
    ensures
        r is Some <==> json_sizes(values@) <= u64::MAX,
        r matches Some(s) ==> s@ == inferred(values@),
{
    match values_count(&values) {
        None => None,
        Some(_) => {
            proof {
                lemma_inferred_bounded(values@);
                lemma_bounded_mono(inferred(values@), json_sizes(values@), u64::MAX as nat);
                lemma_bounded_fits(inferred(values@));
            }
            Some(infer_from_values(values))
        },
    }
}

} // verus!
