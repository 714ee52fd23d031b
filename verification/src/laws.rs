//! What inference and merging promise: a merged or grown shape still
//! accepts every sample that went into it, and it stays well formed.

use vstd::prelude::*;

use crate::json::{key_among, JsonValue};
use crate::{all_objects, inferred, samples_of};
use crate::lemmas::{extends, lemma_first_key_unique};
use crate::positions::{distinct_names, lemma_fields_assoc, lemma_wf_distinct};
use crate::shape::{
    absorbed, absorbed_all, absorbed_members, empty_view, has_key, is_first_key, key_pos,
    keys_distinct, merged, merged_fields, object_opened, observed, wf, FieldView, ObjectView, ScalarSet,
    ShapeView,
};

verus! {

// ---------------------------------------------------------------------------
// Looking fields up by name
// ---------------------------------------------------------------------------

/// The field named `k` (meaningful when [`has_key`]).
pub open spec fn field_of(fs: Seq<(Seq<char>, FieldView)>, k: Seq<char>) -> FieldView {
    fs[key_pos(fs, k)].1
}

/// With distinct names, a field's position is the position of its name.
pub proof fn lemma_distinct_pos(fs: Seq<(Seq<char>, FieldView)>, k: Seq<char>, i: int)
    requires
        keys_distinct(fs),
        0 <= i < fs.len(),
        fs[i].0 == k,
    ensures
        has_key(fs, k),
        key_pos(fs, k) == i,
{
    assert(is_first_key(fs, k, i));
    lemma_first_key_unique(fs, k, i);
}

/// Names in a sequence with distinct names, and in its prefix without the last field.
pub proof fn lemma_distinct_prefix(fs: Seq<(Seq<char>, FieldView)>)
    requires
        keys_distinct(fs),
        fs.len() > 0,
    ensures
        keys_distinct(fs.subrange(0, fs.len() - 1)),
        !has_key(fs.subrange(0, fs.len() - 1), fs[fs.len() - 1].0),
        has_key(fs, fs[fs.len() - 1].0),
        field_of(fs, fs[fs.len() - 1].0) == fs[fs.len() - 1].1,
        forall|k: Seq<char>| #[trigger] has_key(fs, k) <==> (has_key(fs.subrange(0, fs.len() - 1), k) || k == fs[fs.len() - 1].0),
        forall|k: Seq<char>|
            #[trigger] has_key(fs.subrange(0, fs.len() - 1), k) ==> field_of(fs, k) == field_of(fs.subrange(0, fs.len() - 1), k),
{
    let n = fs.len();
    let p = fs.subrange(0, n - 1);
    assert forall|i: int, j: int| 0 <= i < p.len() && 0 <= j < p.len() && i != j implies p[i].0 != p[j].0 by {
        assert(p[i] == fs[i]);
        assert(p[j] == fs[j]);
    }
    if has_key(p, fs[n - 1].0) {
        let i = choose|i: int| #![trigger p[i]] 0 <= i < p.len() && p[i].0 == fs[n - 1].0;
        assert(p[i] == fs[i]);
    }
    lemma_distinct_pos(fs, fs[n - 1].0, n - 1);
    assert forall|k: Seq<char>| #[trigger] has_key(fs, k) <==> (has_key(p, k) || k == fs[n - 1].0) by {
        if has_key(fs, k) {
            let i = choose|i: int| #![trigger fs[i]] 0 <= i < fs.len() && fs[i].0 == k;
            if i < n - 1 {
                assert(p[i] == fs[i]);
            }
        }
        if has_key(p, k) {
            let i = choose|i: int| #![trigger p[i]] 0 <= i < p.len() && p[i].0 == k;
            assert(p[i] == fs[i]);
        }
    }
    assert forall|k: Seq<char>| #[trigger] has_key(p, k) implies field_of(fs, k) == field_of(p, k) by {
        let i = choose|i: int| #![trigger p[i]] 0 <= i < p.len() && p[i].0 == k;
        assert(p[i] == fs[i]);
        lemma_distinct_pos(p, k, i);
        lemma_distinct_pos(fs, k, i);
    }
}

// ---------------------------------------------------------------------------
// What merging does to named fields
// ---------------------------------------------------------------------------

/// The field named `k` after merging the fields `ys` into `xs`.
pub open spec fn combined(xs: Seq<(Seq<char>, FieldView)>, ys: Seq<(Seq<char>, FieldView)>, k: Seq<char>) -> FieldView {
    if has_key(xs, k) && has_key(ys, k) {
        FieldView {
            shape: merged(field_of(xs, k).shape, field_of(ys, k).shape),
            count: field_of(xs, k).count + field_of(ys, k).count,
        }
    } else if has_key(xs, k) {
        field_of(xs, k)
    } else {
        field_of(ys, k)
    }
}

/// Merging fields with distinct names: the names are those of either side,
/// still distinct, and a name on both sides has its counts added and its
/// shapes merged.
pub proof fn lemma_merged_fields_named(xs: Seq<(Seq<char>, FieldView)>, ys: Seq<(Seq<char>, FieldView)>)
    requires
        keys_distinct(xs),
        keys_distinct(ys),
    ensures
        keys_distinct(merged_fields(xs, ys)),
        forall|k: Seq<char>| #[trigger] has_key(merged_fields(xs, ys), k) <==> (has_key(xs, k) || has_key(ys, k)),
        forall|k: Seq<char>|
            #[trigger] has_key(merged_fields(xs, ys), k) ==> field_of(merged_fields(xs, ys), k) == combined(xs, ys, k),
    decreases ys.len(),
{
    let r = merged_fields(xs, ys);
    if ys.len() == 0 {
        assert forall|k: Seq<char>| #[trigger] has_key(r, k) <==> (has_key(xs, k) || has_key(ys, k)) by {}
    } else {
        let n = ys.len();
        let p = ys.subrange(0, n - 1);
        lemma_distinct_prefix(ys);
        lemma_merged_fields_named(xs, p);
        let acc = merged_fields(xs, p);
        let k0 = ys[n - 1].0;
        let f = ys[n - 1].1;
        if has_key(acc, k0) {
            let i = key_pos(acc, k0);
            crate::lemmas::lemma_key_pos(acc, k0);
            assert(r == acc.update(i, (acc[i].0, FieldView { shape: merged(acc[i].1.shape, f.shape), count: acc[i].1.count + f.count })));
            assert forall|a: int, b: int| 0 <= a < r.len() && 0 <= b < r.len() && a != b implies r[a].0 != r[b].0 by {
                assert(r[a].0 == acc[a].0);
                assert(r[b].0 == acc[b].0);
            }
            assert forall|k: Seq<char>| #[trigger] has_key(r, k) <==> (has_key(xs, k) || has_key(ys, k)) by {
                if has_key(r, k) {
                    let j = choose|j: int| #![trigger r[j]] 0 <= j < r.len() && r[j].0 == k;
                    assert(acc[j].0 == k);
                }
                if has_key(acc, k) {
                    let j = choose|j: int| #![trigger acc[j]] 0 <= j < acc.len() && acc[j].0 == k;
                    assert(r[j].0 == k);
                }
            }
            assert forall|k: Seq<char>| #[trigger] has_key(r, k) implies field_of(r, k) == combined(xs, ys, k) by {
                let j = choose|j: int| #![trigger r[j]] 0 <= j < r.len() && r[j].0 == k;
                assert(acc[j].0 == k);
                lemma_distinct_pos(r, k, j);
                lemma_distinct_pos(acc, k, j);
            }
        } else {
            assert(r == acc.push((k0, f)));
            assert forall|a: int, b: int| 0 <= a < r.len() && 0 <= b < r.len() && a != b implies r[a].0 != r[b].0 by {
                if a < acc.len() && b < acc.len() {
                    assert(r[a] == acc[a]);
                    assert(r[b] == acc[b]);
                } else if a < acc.len() {
                    assert(r[a] == acc[a]);
                } else {
                    assert(r[b] == acc[b]);
                }
            }
            assert forall|k: Seq<char>| #[trigger] has_key(r, k) <==> (has_key(xs, k) || has_key(ys, k)) by {
                if has_key(r, k) {
                    let j = choose|j: int| #![trigger r[j]] 0 <= j < r.len() && r[j].0 == k;
                    if j < acc.len() {
                        assert(acc[j].0 == k);
                    }
                }
                if has_key(acc, k) {
                    let j = choose|j: int| #![trigger acc[j]] 0 <= j < acc.len() && acc[j].0 == k;
                    assert(r[j].0 == k);
                }
                if k == k0 {
                    assert(r[acc.len() as int].0 == k);
                }
            }
            assert forall|k: Seq<char>| #[trigger] has_key(r, k) implies field_of(r, k) == combined(xs, ys, k) by {
                let j = choose|j: int| #![trigger r[j]] 0 <= j < r.len() && r[j].0 == k;
                lemma_distinct_pos(r, k, j);
                if j < acc.len() {
                    assert(acc[j].0 == k);
                    lemma_distinct_pos(acc, k, j);
                }
            }
        }
    }
}

/// In a well-formed field list, the field named `k` is well formed and counted within `total`.
pub proof fn lemma_wf_field_of(fs: Seq<(Seq<char>, FieldView)>, total: nat, k: Seq<char>)
    requires
        has_key(fs, k),
        forall|i: int|
            #![trigger fs[i]]
            0 <= i < fs.len() ==> {
                &&& 1 <= fs[i].1.count <= total
                &&& wf(fs[i].1.shape)
            },
    ensures
        1 <= field_of(fs, k).count <= total,
        wf(field_of(fs, k).shape),
        0 <= key_pos(fs, k) < fs.len(),
        fs[key_pos(fs, k)].0 == k,
{
    crate::lemmas::lemma_key_pos(fs, k);
}

// ---------------------------------------------------------------------------
// Merging keeps shapes well formed
// ---------------------------------------------------------------------------

/// Merging two well-formed shapes gives a well-formed shape.
pub proof fn law_merge_keeps_wf(a: ShapeView, b: ShapeView)
    requires
        wf(a),
        wf(b),
    ensures
        wf(merged(a, b)),
    decreases b,
{
    let m = merged(a, b);
    if a.object is Some && b.object is Some {
        let x = a.object->0;
        let y = b.object->0;
        let r = merged_fields(x.fields, y.fields);
        lemma_merged_fields_named(x.fields, y.fields);
        assert forall|j: int| #![trigger r[j]] 0 <= j < r.len() implies {
            &&& 1 <= r[j].1.count <= x.total + y.total
            &&& wf(r[j].1.shape)
        } by {
            let k = r[j].0;
            assert(has_key(r, k));
            lemma_distinct_pos(r, k, j);
            if has_key(x.fields, k) {
                lemma_wf_field_of(x.fields, x.total, k);
            }
            if has_key(y.fields, k) {
                lemma_wf_field_of(y.fields, y.total, k);
                let yi = key_pos(y.fields, k);
                if has_key(x.fields, k) {
                    assert(decreases_to!(b => y.fields[yi].1.shape));
                    law_merge_keeps_wf(field_of(x.fields, k).shape, field_of(y.fields, k).shape);
                }
            }
        }
    }
    if a.array is Some && b.array is Some {
        law_merge_keeps_wf(*a.array->0, *b.array->0);
    }
}

// ---------------------------------------------------------------------------
// Which values a shape accepts
// ---------------------------------------------------------------------------

/// Shape `s` describes value `v`: `v`'s kind is among those of `s`; each
/// element of an array is accepted by the element shape; each key of an
/// object (by its first member) names a field whose shape accepts the
/// member's value, and every required field (seen in every observation) is
/// present.
pub open spec fn accepts(s: ShapeView, v: JsonValue) -> bool
    decreases v,
{
    match v {
        JsonValue::Null => s.nullable,
        JsonValue::Bool(_) => s.scalars.boolean,
        JsonValue::Integer(_) => s.scalars.integer,
        JsonValue::Float => s.scalars.float,
        JsonValue::String(_) => s.scalars.string,
        JsonValue::Array(items) => {
            &&& s.array is Some
            &&& forall|i: int| 0 <= i < items@.len() ==> accepts(*s.array->0, #[trigger] items@[i])
        },
        JsonValue::Object(entries) => {
            &&& s.object is Some
            &&& forall|i: int|
                #![trigger entries@[i]]
                0 <= i < entries@.len() && !key_among(entries@, i, entries@[i].0@) ==> {
                    &&& has_key(s.object->0.fields, entries@[i].0@)
                    &&& accepts(field_of(s.object->0.fields, entries@[i].0@).shape, entries@[i].1)
                }
            &&& forall|j: int|
                #![trigger s.object->0.fields[j]]
                0 <= j < s.object->0.fields.len() && s.object->0.fields[j].1.count == s.object->0.total
                    ==> key_among(entries@, entries@.len() as int, s.object->0.fields[j].0)
        },
    }
}

/// Merging keeps every value that either side accepted: `merged(a, b)`
/// accepts whatever `a` or `b` accepts (for well-formed shapes in which
/// every object was observed at least once).
pub proof fn law_merge_keeps_accepted(a: ShapeView, b: ShapeView, w: JsonValue)
    requires
        wf(a),
        wf(b),
        observed(a),
        observed(b),
        accepts(a, w) || accepts(b, w),
    ensures
        accepts(merged(a, b), w),
    decreases w,
{
    let m = merged(a, b);
    match w {
        JsonValue::Array(items) => {
            assert forall|i: int| 0 <= i < items@.len() implies accepts(*m.array->0, #[trigger] items@[i]) by {
                if a.array is Some && b.array is Some {
                    law_merge_keeps_accepted(*a.array->0, *b.array->0, items@[i]);
                }
            }
        },
        JsonValue::Object(entries) => {
            if a.object is Some && b.object is Some {
                let x = a.object->0;
                let y = b.object->0;
                let r = merged_fields(x.fields, y.fields);
                let es = entries@;
                lemma_merged_fields_named(x.fields, y.fields);
                assert forall|i: int|
                    #![trigger es[i]]
                    0 <= i < es.len() && !key_among(es, i, es[i].0@) implies {
                        &&& has_key(r, es[i].0@)
                        &&& accepts(field_of(r, es[i].0@).shape, es[i].1)
                    } by {
                    let k = es[i].0@;
                    if has_key(x.fields, k) {
                        lemma_wf_field_of(x.fields, x.total, k);
                    }
                    if has_key(y.fields, k) {
                        lemma_wf_field_of(y.fields, y.total, k);
                    }
                    if accepts(a, w) {
                        assert(has_key(x.fields, k));
                        assert(accepts(field_of(x.fields, k).shape, es[i].1));
                    } else {
                        assert(has_key(y.fields, k));
                        assert(accepts(field_of(y.fields, k).shape, es[i].1));
                    }
                    assert(has_key(r, k));
                    assert(field_of(r, k) == combined(x.fields, y.fields, k));
                    if has_key(x.fields, k) && has_key(y.fields, k) {
                        law_merge_keeps_accepted(field_of(x.fields, k).shape, field_of(y.fields, k).shape, es[i].1);
                    }
                }
                assert forall|j: int|
                    #![trigger r[j]]
                    0 <= j < r.len() && r[j].1.count == x.total + y.total implies key_among(es, es.len() as int, r[j].0) by {
                    let k = r[j].0;
                    assert(has_key(r, k));
                    lemma_distinct_pos(r, k, j);
                    if has_key(x.fields, k) {
                        lemma_wf_field_of(x.fields, x.total, k);
                    }
                    if has_key(y.fields, k) {
                        lemma_wf_field_of(y.fields, y.total, k);
                    }
                    if accepts(a, w) {
                        let jx = key_pos(x.fields, k);
                        assert(x.fields[jx].1 == field_of(x.fields, k));
                    } else {
                        let jy = key_pos(y.fields, k);
                        assert(y.fields[jy].1 == field_of(y.fields, k));
                    }
                }
            }
        },
        _ => {},
    }
}

// ---------------------------------------------------------------------------
// What observing an object does to named fields
// ---------------------------------------------------------------------------

/// `i` is the first member of `entries` with key `k`.
pub open spec fn is_first_member(entries: Seq<(String, JsonValue)>, k: Seq<char>, i: int) -> bool {
    &&& 0 <= i < entries.len()
    &&& entries[i].0@ == k
    &&& !key_among(entries, i, k)
}

/// The position of the first member with key `k` (meaningful when it occurs).
pub open spec fn member_pos(entries: Seq<(String, JsonValue)>, k: Seq<char>) -> int {
    choose|i: int| is_first_member(entries, k, i)
}

/// A key that occurs has a first member, and [`member_pos`] is it.
pub proof fn lemma_member_pos(entries: Seq<(String, JsonValue)>, k: Seq<char>, n: int)
    requires
        0 <= n <= entries.len(),
        key_among(entries, n, k),
    ensures
        is_first_member(entries, k, member_pos(entries, k)),
        member_pos(entries, k) < n,
    decreases n,
{
    let i = choose|i: int| 0 <= i < n && entries[i].0@ == k;
    if key_among(entries, i, k) {
        lemma_member_pos(entries, k, i);
    } else {
        assert(is_first_member(entries, k, i));
        let p = member_pos(entries, k);
        if p > i {
            assert(entries[i].0@ == k);
            assert(key_among(entries, p, k));
        } else if p < i {
            assert(key_among(entries, i, k));
        }
    }
}

/// The first member of a key is unique.
pub proof fn lemma_member_pos_unique(entries: Seq<(String, JsonValue)>, k: Seq<char>, i: int)
    requires
        is_first_member(entries, k, i),
    ensures
        member_pos(entries, k) == i,
{
    assert(key_among(entries, i + 1, k));
    lemma_member_pos(entries, k, i + 1);
    let p = member_pos(entries, k);
    if p < i {
        assert(key_among(entries, i, k));
    }
}

/// Looking among the members of a prefix is looking among the same first members.
pub proof fn lemma_key_among_prefix_step(entries: Seq<(String, JsonValue)>, k: Seq<char>)
    requires
        entries.len() > 0,
    ensures
        forall|i: int|
            0 <= i <= entries.len() - 1 ==> #[trigger] key_among(entries, i, k) == key_among(
                entries.subrange(0, entries.len() - 1),
                i,
                k,
            ),
        key_among(entries, entries.len() as int, k) == (key_among(
            entries.subrange(0, entries.len() - 1),
            entries.len() - 1,
            k,
        ) || entries[entries.len() - 1].0@ == k),
{
    let n = entries.len();
    let p = entries.subrange(0, n - 1);
    assert forall|i: int| 0 <= i <= n - 1 implies #[trigger] key_among(entries, i, k) == key_among(p, i, k) by {
        if key_among(entries, i, k) {
            let j = choose|j: int| 0 <= j < i && entries[j].0@ == k;
            assert(p[j] == entries[j]);
        }
        if key_among(p, i, k) {
            let j = choose|j: int| 0 <= j < i && p[j].0@ == k;
            assert(p[j] == entries[j]);
        }
    }
    if key_among(entries, n as int, k) {
        let j = choose|j: int| 0 <= j < n && entries[j].0@ == k;
        if j < n - 1 {
            assert(p[j] == entries[j]);
        }
    }
    if key_among(p, n - 1, k) {
        let j = choose|j: int| 0 <= j < n - 1 && p[j].0@ == k;
        assert(p[j] == entries[j]);
    }
}

/// The field named `k` after observing `val` under key `k` once.
pub open spec fn absorbed_field(fs: Seq<(Seq<char>, FieldView)>, k: Seq<char>, val: JsonValue) -> FieldView {
    if has_key(fs, k) {
        FieldView { shape: absorbed(field_of(fs, k).shape, val), count: field_of(fs, k).count + 1 }
    } else {
        FieldView { shape: absorbed(empty_view(), val), count: 1 }
    }
}

/// Observing an object's members, over fields with distinct names: the names
/// are the old ones and the object's keys, still distinct; a key's field has
/// observed the value of the key's first member once more; other fields stay.
pub proof fn lemma_absorbed_members_named(o: ObjectView, es: Seq<(String, JsonValue)>)
    requires
        keys_distinct(o.fields),
    ensures
        keys_distinct(absorbed_members(o, es).fields),
        absorbed_members(o, es).total == o.total,
        forall|k: Seq<char>|
            #[trigger] has_key(absorbed_members(o, es).fields, k) <==> (has_key(o.fields, k) || key_among(
                es,
                es.len() as int,
                k,
            )),
        forall|k: Seq<char>|
            #[trigger] key_among(es, es.len() as int, k) ==> field_of(absorbed_members(o, es).fields, k)
                == absorbed_field(o.fields, k, es[member_pos(es, k)].1),
        forall|k: Seq<char>|
            has_key(o.fields, k) && !key_among(es, es.len() as int, k) ==> #[trigger] field_of(
                absorbed_members(o, es).fields,
                k,
            ) == field_of(o.fields, k),
    decreases es.len(),
{
    let r = absorbed_members(o, es);
    if es.len() == 0 {
        assert forall|k: Seq<char>| #[trigger] has_key(r.fields, k) <==> (has_key(o.fields, k) || key_among(es, es.len() as int, k)) by {}
    } else {
        let n = es.len();
        let p = es.subrange(0, n - 1);
        lemma_absorbed_members_named(o, p);
        let acc = absorbed_members(o, p);
        let k0 = es[n - 1].0@;
        let v0 = es[n - 1].1;
        assert forall|k: Seq<char>| key_among(p, p.len() as int, k) implies member_pos(es, k) == member_pos(p, k) && es[member_pos(es, k)].1 == p[member_pos(p, k)].1 by {
            lemma_key_among_prefix_step(es, k);
            lemma_member_pos(p, k, p.len() as int);
            let i = member_pos(p, k);
            assert(p[i] == es[i]);
            assert(key_among(es, i, k) == key_among(p, i, k));
            lemma_member_pos_unique(es, k, i);
        }
        assert forall|k: Seq<char>| #[trigger] key_among(es, es.len() as int, k) == (key_among(p, p.len() as int, k) || k == k0) by {
            lemma_key_among_prefix_step(es, k);
        }
        if key_among(p, p.len() as int, k0) {
            assert(r == acc);
            assert forall|k: Seq<char>| #[trigger] key_among(es, es.len() as int, k) implies field_of(r.fields, k)
                == absorbed_field(o.fields, k, es[member_pos(es, k)].1) by {
                assert(key_among(p, p.len() as int, k));
            }
            assert forall|k: Seq<char>| has_key(o.fields, k) && !key_among(es, es.len() as int, k) implies #[trigger] field_of(
                r.fields,
                k,
            ) == field_of(o.fields, k) by {
                assert(!key_among(p, p.len() as int, k));
            }
        } else {
            lemma_key_among_prefix_step(es, k0);
            assert(is_first_member(es, k0, n - 1));
            lemma_member_pos_unique(es, k0, n - 1);
            if has_key(acc.fields, k0) {
                let i = key_pos(acc.fields, k0);
                crate::lemmas::lemma_key_pos(acc.fields, k0);
                assert(r.fields == acc.fields.update(
                    i,
                    (acc.fields[i].0, FieldView { shape: absorbed(acc.fields[i].1.shape, v0), count: acc.fields[i].1.count + 1 }),
                ));
                assert forall|a: int, b: int| 0 <= a < r.fields.len() && 0 <= b < r.fields.len() && a != b implies r.fields[a].0 != r.fields[b].0 by {
                    assert(r.fields[a].0 == acc.fields[a].0);
                    assert(r.fields[b].0 == acc.fields[b].0);
                }
                assert forall|k: Seq<char>| #[trigger] has_key(r.fields, k) <==> has_key(acc.fields, k) by {
                    if has_key(r.fields, k) {
                        let j = choose|j: int| #![trigger r.fields[j]] 0 <= j < r.fields.len() && r.fields[j].0 == k;
                        assert(acc.fields[j].0 == k);
                    }
                    if has_key(acc.fields, k) {
                        let j = choose|j: int| #![trigger acc.fields[j]] 0 <= j < acc.fields.len() && acc.fields[j].0 == k;
                        assert(r.fields[j].0 == k);
                    }
                }
                assert forall|k: Seq<char>| #[trigger] has_key(r.fields, k) implies field_of(r.fields, k) == (if k == k0 {
                    FieldView { shape: absorbed(field_of(acc.fields, k).shape, v0), count: field_of(acc.fields, k).count + 1 }
                } else {
                    field_of(acc.fields, k)
                }) by {
                    let j = choose|j: int| #![trigger r.fields[j]] 0 <= j < r.fields.len() && r.fields[j].0 == k;
                    assert(acc.fields[j].0 == k);
                    lemma_distinct_pos(r.fields, k, j);
                    lemma_distinct_pos(acc.fields, k, j);
                }
                assert forall|k: Seq<char>| #[trigger] key_among(es, es.len() as int, k) implies field_of(r.fields, k)
                    == absorbed_field(o.fields, k, es[member_pos(es, k)].1) by {
                    if k == k0 {
                        assert(has_key(o.fields, k0));
                        assert(has_key(r.fields, k0));
                        assert(field_of(acc.fields, k0) == field_of(o.fields, k0));
                    } else {
                        assert(key_among(p, p.len() as int, k));
                        assert(has_key(acc.fields, k));
                        assert(has_key(r.fields, k));
                    }
                }
                assert forall|k: Seq<char>| has_key(o.fields, k) && !key_among(es, es.len() as int, k) implies #[trigger] field_of(
                    r.fields,
                    k,
                ) == field_of(o.fields, k) by {
                    assert(!key_among(p, p.len() as int, k));
                    assert(has_key(acc.fields, k));
                    assert(has_key(r.fields, k));
                }
            } else {
                assert(r.fields == acc.fields.push((k0, FieldView { shape: absorbed(empty_view(), v0), count: 1 })));
                assert forall|a: int, b: int| 0 <= a < r.fields.len() && 0 <= b < r.fields.len() && a != b implies r.fields[a].0 != r.fields[b].0 by {
                    if a < acc.fields.len() && b < acc.fields.len() {
                        assert(r.fields[a] == acc.fields[a]);
                        assert(r.fields[b] == acc.fields[b]);
                    } else if a < acc.fields.len() {
                        assert(r.fields[a] == acc.fields[a]);
                    } else {
                        assert(r.fields[b] == acc.fields[b]);
                    }
                }
                assert forall|k: Seq<char>| #[trigger] has_key(r.fields, k) <==> (has_key(acc.fields, k) || k == k0) by {
                    if has_key(r.fields, k) {
                        let j = choose|j: int| #![trigger r.fields[j]] 0 <= j < r.fields.len() && r.fields[j].0 == k;
                        if j < acc.fields.len() {
                            assert(acc.fields[j].0 == k);
                        }
                    }
                    if has_key(acc.fields, k) {
                        let j = choose|j: int| #![trigger acc.fields[j]] 0 <= j < acc.fields.len() && acc.fields[j].0 == k;
                        assert(r.fields[j].0 == k);
                    }
                    if k == k0 {
                        assert(r.fields[acc.fields.len() as int].0 == k);
                    }
                }
                assert forall|k: Seq<char>| #[trigger] has_key(r.fields, k) implies field_of(r.fields, k) == (if k == k0 {
                    FieldView { shape: absorbed(empty_view(), v0), count: 1 }
                } else {
                    field_of(acc.fields, k)
                }) by {
                    let j = choose|j: int| #![trigger r.fields[j]] 0 <= j < r.fields.len() && r.fields[j].0 == k;
                    lemma_distinct_pos(r.fields, k, j);
                    if j < acc.fields.len() {
                        assert(acc.fields[j].0 == k);
                        lemma_distinct_pos(acc.fields, k, j);
                    }
                }
                assert forall|k: Seq<char>| #[trigger] key_among(es, es.len() as int, k) implies field_of(r.fields, k)
                    == absorbed_field(o.fields, k, es[member_pos(es, k)].1) by {
                    if k == k0 {
                        assert(!has_key(o.fields, k0));
                        assert(has_key(r.fields, k0));
                    } else {
                        assert(key_among(p, p.len() as int, k));
                        assert(has_key(acc.fields, k));
                        assert(has_key(r.fields, k));
                    }
                }
                assert forall|k: Seq<char>| has_key(o.fields, k) && !key_among(es, es.len() as int, k) implies #[trigger] field_of(
                    r.fields,
                    k,
                ) == field_of(o.fields, k) by {
                    assert(!key_among(p, p.len() as int, k));
                    assert(has_key(acc.fields, k));
                    assert(has_key(r.fields, k));
                }
            }
        }
    }
}

// ---------------------------------------------------------------------------
// Observing keeps shapes well formed, accepts the new value, keeps the old ones
// ---------------------------------------------------------------------------

/// The object an observation extends is well formed, apart from its total.
pub proof fn lemma_opened_fields(s: ShapeView)
    requires
        wf(s),
    ensures
        keys_distinct(object_opened(s).fields),
        object_opened(s).total >= 1,
        forall|i: int|
            #![trigger object_opened(s).fields[i]]
            0 <= i < object_opened(s).fields.len() ==> {
                &&& 1 <= object_opened(s).fields[i].1.count <= object_opened(s).total - 1
                &&& wf(object_opened(s).fields[i].1.shape)
            },
{
}

/// Observing a value keeps a well-formed shape well formed.
pub proof fn law_absorb_keeps_wf(s: ShapeView, v: JsonValue)
    requires
        wf(s),
    ensures
        wf(absorbed(s, v)),
    decreases v,
{
    match v {
        JsonValue::Array(items) => {
            let inner = if s.array is Some { *s.array->0 } else { empty_view() };
            lemma_absorbed_all_wf(inner, items@);
        },
        JsonValue::Object(entries) => {
            let es = entries@;
            let o = object_opened(s);
            lemma_opened_fields(s);
            lemma_absorbed_members_named(o, es);
            let r = absorbed_members(o, es);
            assert forall|j: int| #![trigger r.fields[j]] 0 <= j < r.fields.len() implies {
                &&& 1 <= r.fields[j].1.count <= r.total
                &&& wf(r.fields[j].1.shape)
            } by {
                let k = r.fields[j].0;
                assert(has_key(r.fields, k));
                lemma_distinct_pos(r.fields, k, j);
                if has_key(o.fields, k) {
                    crate::lemmas::lemma_key_pos(o.fields, k);
                }
                if key_among(es, es.len() as int, k) {
                    lemma_member_pos(es, k, es.len() as int);
                    let m = member_pos(es, k);
                    if has_key(o.fields, k) {
                        law_absorb_keeps_wf(field_of(o.fields, k).shape, es[m].1);
                    } else {
                        law_absorb_keeps_wf(empty_view(), es[m].1);
                    }
                }
            }
        },
        _ => {},
    }
}

/// Observing several values keeps a well-formed shape well formed.
pub proof fn lemma_absorbed_all_wf(s: ShapeView, items: Seq<JsonValue>)
    requires
        wf(s),
    ensures
        wf(absorbed_all(s, items)),
    decreases items,
{
    if items.len() > 0 {
        let p = items.subrange(0, items.len() - 1);
        lemma_absorbed_all_wf(s, p);
        law_absorb_keeps_wf(absorbed_all(s, p), items[items.len() - 1]);
    }
}

/// Observing a value keeps every object of a well-formed shape observed at least once.
pub proof fn lemma_absorb_keeps_observed(s: ShapeView, v: JsonValue)
    requires
        wf(s),
        observed(s),
    ensures
        observed(absorbed(s, v)),
    decreases v,
{
    match v {
        JsonValue::Array(items) => {
            let inner = if s.array is Some { *s.array->0 } else { empty_view() };
            lemma_absorbed_all_wf(inner, items@);
            lemma_absorbed_all_observed(inner, items@);
        },
        JsonValue::Object(entries) => {
            let es = entries@;
            let o = object_opened(s);
            lemma_opened_fields(s);
            lemma_absorbed_members_named(o, es);
            let r = absorbed_members(o, es);
            assert forall|j: int| #![trigger r.fields[j]] 0 <= j < r.fields.len() implies observed(r.fields[j].1.shape) by {
                let k = r.fields[j].0;
                assert(has_key(r.fields, k));
                lemma_distinct_pos(r.fields, k, j);
                if has_key(o.fields, k) {
                    crate::lemmas::lemma_key_pos(o.fields, k);
                }
                if key_among(es, es.len() as int, k) {
                    lemma_member_pos(es, k, es.len() as int);
                    let m = member_pos(es, k);
                    if has_key(o.fields, k) {
                        lemma_absorb_keeps_observed(field_of(o.fields, k).shape, es[m].1);
                    } else {
                        lemma_absorb_keeps_observed(empty_view(), es[m].1);
                    }
                }
            }
        },
        _ => {},
    }
}

/// Observing several values keeps every object of a well-formed shape observed at least once.
pub proof fn lemma_absorbed_all_observed(s: ShapeView, items: Seq<JsonValue>)
    requires
        wf(s),
        observed(s),
    ensures
        observed(absorbed_all(s, items)),
    decreases items,
{
    if items.len() > 0 {
        let p = items.subrange(0, items.len() - 1);
        lemma_absorbed_all_observed(s, p);
        lemma_absorbed_all_wf(s, p);
        lemma_absorb_keeps_observed(absorbed_all(s, p), items[items.len() - 1]);
    }
}

/// A shape accepts the value it just observed.
pub proof fn law_absorb_accepts_value(s: ShapeView, v: JsonValue)
    requires
        wf(s),
        observed(s),
    ensures
        accepts(absorbed(s, v), v),
    decreases v,
{
    match v {
        JsonValue::Array(items) => {
            let inner = if s.array is Some { *s.array->0 } else { empty_view() };
            lemma_absorbed_all_accepts_each(inner, items@);
        },
        JsonValue::Object(entries) => {
            let es = entries@;
            let o = object_opened(s);
            lemma_opened_fields(s);
            lemma_absorbed_members_named(o, es);
            let r = absorbed_members(o, es);
            assert forall|i: int|
                #![trigger es[i]]
                0 <= i < es.len() && !key_among(es, i, es[i].0@) implies {
                    &&& has_key(r.fields, es[i].0@)
                    &&& accepts(field_of(r.fields, es[i].0@).shape, es[i].1)
                } by {
                let k = es[i].0@;
                assert(key_among(es, es.len() as int, k));
                assert(is_first_member(es, k, i));
                lemma_member_pos_unique(es, k, i);
                if has_key(o.fields, k) {
                    crate::lemmas::lemma_key_pos(o.fields, k);
                    law_absorb_accepts_value(field_of(o.fields, k).shape, es[i].1);
                } else {
                    law_absorb_accepts_value(empty_view(), es[i].1);
                }
            }
            assert forall|j: int|
                #![trigger r.fields[j]]
                0 <= j < r.fields.len() && r.fields[j].1.count == r.total implies key_among(es, es.len() as int, r.fields[j].0) by {
                let k = r.fields[j].0;
                assert(has_key(r.fields, k));
                lemma_distinct_pos(r.fields, k, j);
                if !key_among(es, es.len() as int, k) {
                    assert(has_key(o.fields, k));
                    crate::lemmas::lemma_key_pos(o.fields, k);
                    let jo = key_pos(o.fields, k);
                    assert(o.fields[jo].1 == field_of(o.fields, k));
                    assert(field_of(r.fields, k) == field_of(o.fields, k));
                    assert(false);
                }
            }
        },
        _ => {},
    }
}

/// After observing several values, the shape accepts each of them.
pub proof fn lemma_absorbed_all_accepts_each(s: ShapeView, items: Seq<JsonValue>)
    requires
        wf(s),
        observed(s),
    ensures
        forall|i: int| 0 <= i < items.len() ==> accepts(absorbed_all(s, items), #[trigger] items[i]),
    decreases items,
{
    if items.len() > 0 {
        let n = items.len();
        let p = items.subrange(0, n - 1);
        let before = absorbed_all(s, p);
        lemma_absorbed_all_accepts_each(s, p);
        lemma_absorbed_all_wf(s, p);
        lemma_absorbed_all_observed(s, p);
        assert forall|i: int| 0 <= i < n implies accepts(absorbed_all(s, items), #[trigger] items[i]) by {
            if i < n - 1 {
                assert(p[i] == items[i]);
                law_absorb_keeps_accepted(before, items[n - 1], items[i]);
            } else {
                law_absorb_accepts_value(before, items[n - 1]);
            }
        }
    }
}

/// Observing a value keeps every value the shape accepted.
pub proof fn law_absorb_keeps_accepted(s: ShapeView, v: JsonValue, w: JsonValue)
    requires
        wf(s),
        observed(s),
        accepts(s, w),
    ensures
        accepts(absorbed(s, v), w),
    decreases v,
{
    let t = absorbed(s, v);
    match v {
        JsonValue::Array(items) => {
            if let JsonValue::Array(ws) = w {
                let p = *s.array->0;
                assert forall|i: int| 0 <= i < ws@.len() implies accepts(*t.array->0, #[trigger] ws@[i]) by {
                    lemma_absorbed_all_keeps(p, items@, ws@[i]);
                }
            }
        },
        JsonValue::Object(entries) => {
            if let JsonValue::Object(wentries) = w {
                let es = entries@;
                let ws = wentries@;
                let x = s.object->0;
                let o = object_opened(s);
                lemma_opened_fields(s);
                lemma_absorbed_members_named(o, es);
                let r = absorbed_members(o, es);
                assert forall|i: int|
                    #![trigger ws[i]]
                    0 <= i < ws.len() && !key_among(ws, i, ws[i].0@) implies {
                        &&& has_key(r.fields, ws[i].0@)
                        &&& accepts(field_of(r.fields, ws[i].0@).shape, ws[i].1)
                    } by {
                    let k = ws[i].0@;
                    assert(has_key(x.fields, k));
                    crate::lemmas::lemma_key_pos(x.fields, k);
                    if key_among(es, es.len() as int, k) {
                        lemma_member_pos(es, k, es.len() as int);
                        let m = member_pos(es, k);
                        law_absorb_keeps_accepted(field_of(x.fields, k).shape, es[m].1, ws[i].1);
                    }
                }
                assert forall|j: int|
                    #![trigger r.fields[j]]
                    0 <= j < r.fields.len() && r.fields[j].1.count == r.total implies key_among(ws, ws.len() as int, r.fields[j].0) by {
                    let k = r.fields[j].0;
                    assert(has_key(r.fields, k));
                    lemma_distinct_pos(r.fields, k, j);
                    assert(o.fields == x.fields);
                    assert(r.total == x.total + 1);
                    if has_key(x.fields, k) {
                        crate::lemmas::lemma_key_pos(x.fields, k);
                        let jx = key_pos(x.fields, k);
                        assert(x.fields[jx].1 == field_of(x.fields, k));
                        if key_among(es, es.len() as int, k) {
                            assert(field_of(r.fields, k).count == field_of(x.fields, k).count + 1);
                            assert(x.fields[jx].1.count == x.total);
                        } else {
                            assert(field_of(r.fields, k) == field_of(x.fields, k));
                            assert(false);
                        }
                    } else {
                        assert(key_among(es, es.len() as int, k));
                        assert(field_of(r.fields, k).count == 1);
                        assert(false);
                    }
                }
            }
        },
        _ => {},
    }
}

/// Observing several values keeps every value the shape accepted.
pub proof fn lemma_absorbed_all_keeps(s: ShapeView, items: Seq<JsonValue>, w: JsonValue)
    requires
        wf(s),
        observed(s),
        accepts(s, w),
    ensures
        accepts(absorbed_all(s, items), w),
    decreases items,
{
    if items.len() > 0 {
        let p = items.subrange(0, items.len() - 1);
        lemma_absorbed_all_keeps(s, p, w);
        lemma_absorbed_all_wf(s, p);
        lemma_absorbed_all_observed(s, p);
        law_absorb_keeps_accepted(absorbed_all(s, p), items[items.len() - 1], w);
    }
}

// ---------------------------------------------------------------------------
// What one observation changes
// ---------------------------------------------------------------------------

/// Observing a value records exactly the kind of that value and nothing
/// else: `null` only sets `nullable`; a boolean, integer (of any sign or
/// size), float or string only sets its own scalar flag; an array only
/// touches the element shape and an object only the object shape.
pub proof fn law_absorb_sets_only_its_kind(s: ShapeView, v: JsonValue)
    ensures
        (v is Null) ==> absorbed(s, v) == (ShapeView { nullable: true, ..s }),
        (v is Bool) ==> absorbed(s, v) == (ShapeView { scalars: ScalarSet { boolean: true, ..s.scalars }, ..s }),
        (v is Integer) ==> absorbed(s, v) == (ShapeView { scalars: ScalarSet { integer: true, ..s.scalars }, ..s }),
        (v is Float) ==> absorbed(s, v) == (ShapeView { scalars: ScalarSet { float: true, ..s.scalars }, ..s }),
        (v is String) ==> absorbed(s, v) == (ShapeView { scalars: ScalarSet { string: true, ..s.scalars }, ..s }),
        (v is Array) ==> {
            &&& absorbed(s, v).nullable == s.nullable
            &&& absorbed(s, v).scalars == s.scalars
            &&& absorbed(s, v).object == s.object
            &&& (absorbed(s, v).array is Some)
        },
        (v is Object) ==> {
            &&& absorbed(s, v).nullable == s.nullable
            &&& absorbed(s, v).scalars == s.scalars
            &&& absorbed(s, v).array == s.array
            &&& (absorbed(s, v).object is Some)
        },
{
}

/// Inferring from one more top-level value: a non-empty array whose
/// elements are all objects counts as that many separate records, folded in
/// one by one; any other value is folded in whole, as one sample.
pub proof fn law_inferred_next(values: Seq<JsonValue>, v: JsonValue)
    ensures
        ((v is Array) && v->Array_0@.len() >= 1 && forall|i: int|
            #![trigger v->Array_0@[i]]
            0 <= i < v->Array_0@.len() ==> (v->Array_0@[i] is Object)) ==> inferred(values.push(v))
            == absorbed_all(inferred(values), v->Array_0@),
        !((v is Array) && v->Array_0@.len() >= 1 && forall|i: int|
            #![trigger v->Array_0@[i]]
            0 <= i < v->Array_0@.len() ==> (v->Array_0@[i] is Object)) ==> inferred(values.push(v))
            == absorbed(inferred(values), v),
{
    let all = values.push(v);
    assert(all.subrange(0, all.len() - 1) =~= values);
    assert(all[all.len() - 1] == v);
    let one = seq![v];
    assert(one.subrange(0, 0) =~= Seq::<JsonValue>::empty());
    if v is Array && v->Array_0@.len() >= 1 && forall|i: int|
        0 <= i < v->Array_0@.len() ==> #[trigger] v->Array_0@[i] is Object {
        assert(all_objects(v->Array_0@));
        assert(samples_of(v) == v->Array_0@);
    } else {
        if v is Array && v->Array_0@.len() >= 1 {
            assert(!all_objects(v->Array_0@));
        }
        assert(samples_of(v) == one);
        assert(absorbed_all(inferred(values), one) == absorbed(absorbed_all(inferred(values), Seq::empty()), v));
    }
}

/// A single top-level array of records, even of one record, is inferred as
/// those records: `inferred([Array(items)]) == absorbed_all(empty, items)`.
pub proof fn law_records_are_spread(v: JsonValue)
    requires
        (v is Array),
        v->Array_0@.len() >= 1,
        forall|i: int| #![trigger v->Array_0@[i]] 0 <= i < v->Array_0@.len() ==> (v->Array_0@[i] is Object),
    ensures
        inferred(seq![v]) == absorbed_all(empty_view(), v->Array_0@),
{
    law_inferred_next(Seq::empty(), v);
    assert(Seq::<JsonValue>::empty().push(v) =~= seq![v]);
}

// ---------------------------------------------------------------------------
// Inference
// ---------------------------------------------------------------------------

/// The shape inferred from top-level values is well formed, has every
/// object observed at least once, and accepts
/// every sample that went into it: "degu merges every observation".
pub proof fn law_inferred_accepts_samples(values: Seq<JsonValue>)
    ensures
        wf(inferred(values)),
        observed(inferred(values)),
        forall|k: int, j: int|
            0 <= k < values.len() && 0 <= j < samples_of(values[k]).len() ==> accepts(
                inferred(values),
                #[trigger] samples_of(values[k])[j],
            ),
    decreases values.len(),
{
    if values.len() > 0 {
        let n = values.len();
        let p = values.subrange(0, n - 1);
        let before = inferred(p);
        let last = samples_of(values[n - 1]);
        law_inferred_accepts_samples(p);
        lemma_absorbed_all_wf(before, last);
        lemma_absorbed_all_observed(before, last);
        lemma_absorbed_all_accepts_each(before, last);
        assert forall|k: int, j: int|
            0 <= k < n && 0 <= j < samples_of(values[k]).len() implies accepts(
                inferred(values),
                #[trigger] samples_of(values[k])[j],
            ) by {
            if k < n - 1 {
                assert(p[k] == values[k]);
                lemma_absorbed_all_keeps(before, last, samples_of(values[k])[j]);
            }
        }
    }
}

/// A field that some object sample lacks is optional: its count is below
/// the object total, so emitters mark it optional (outside strict mode).
pub proof fn law_missing_field_is_optional(values: Seq<JsonValue>, k: int, j: int, name: Seq<char>)
    requires
        0 <= k < values.len(),
        0 <= j < samples_of(values[k]).len(),
        samples_of(values[k])[j] is Object,
        !key_among(samples_of(values[k])[j]->Object_0@, samples_of(values[k])[j]->Object_0@.len() as int, name),
        inferred(values).object is Some,
        has_key(inferred(values).object->0.fields, name),
    ensures
        field_of(inferred(values).object->0.fields, name).count < inferred(values).object->0.total,
{
    law_inferred_accepts_samples(values);
    let o = inferred(values).object->0;
    let w = samples_of(values[k])[j];
    assert(accepts(inferred(values), w));
    crate::lemmas::lemma_key_pos(o.fields, name);
    let i = key_pos(o.fields, name);
    assert(o.fields[i].1 == field_of(o.fields, name));
}

/// The object form of `s`, if any, has a required field `name`.
pub open spec fn requires_key(s: ShapeView, name: Seq<char>) -> bool {
    s.object is Some ==> {
        &&& has_key(s.object->0.fields, name)
        &&& field_of(s.object->0.fields, name).count == s.object->0.total
    }
}

/// A value that is an object has a member `name`.
pub open spec fn object_has_member(v: JsonValue, name: Seq<char>) -> bool {
    v is Object ==> key_among(v->Object_0@, v->Object_0@.len() as int, name)
}

/// Observing a value keeps `name` required, unless the value is an object without it.
pub proof fn lemma_absorbed_keeps_required(s: ShapeView, v: JsonValue, name: Seq<char>)
    requires
        wf(s),
        requires_key(s, name),
        object_has_member(v, name),
    ensures
        requires_key(absorbed(s, v), name),
{
    if let JsonValue::Object(entries) = v {
        let es = entries@;
        let o = object_opened(s);
        lemma_opened_fields(s);
        lemma_absorbed_members_named(o, es);
        if s.object is Some {
            assert(o.fields == s.object->0.fields);
        } else {
            assert(!has_key(o.fields, name));
        }
    }
}

/// Observing several values keeps `name` required when every object among them has it.
pub proof fn lemma_absorbed_all_keeps_required(s: ShapeView, items: Seq<JsonValue>, name: Seq<char>)
    requires
        wf(s),
        requires_key(s, name),
        forall|i: int| 0 <= i < items.len() ==> object_has_member(#[trigger] items[i], name),
    ensures
        requires_key(absorbed_all(s, items), name),
    decreases items.len(),
{
    if items.len() > 0 {
        let p = items.subrange(0, items.len() - 1);
        assert forall|i: int| 0 <= i < p.len() implies object_has_member(#[trigger] p[i], name) by {
            assert(p[i] == items[i]);
        }
        lemma_absorbed_all_keeps_required(s, p, name);
        lemma_absorbed_all_wf(s, p);
        lemma_absorbed_keeps_required(absorbed_all(s, p), items[items.len() - 1], name);
    }
}

/// A field present in every object sample is required: its count equals
/// the object total.
pub proof fn law_common_field_is_required(values: Seq<JsonValue>, name: Seq<char>)
    requires
        forall|k: int, j: int|
            0 <= k < values.len() && 0 <= j < samples_of(values[k]).len() ==> object_has_member(
                #[trigger] samples_of(values[k])[j],
                name,
            ),
    ensures
        requires_key(inferred(values), name),
    decreases values.len(),
{
    if values.len() > 0 {
        let n = values.len();
        let p = values.subrange(0, n - 1);
        assert forall|k: int, j: int|
            0 <= k < p.len() && 0 <= j < samples_of(p[k]).len() implies object_has_member(
                #[trigger] samples_of(p[k])[j],
                name,
            ) by {
            assert(p[k] == values[k]);
        }
        law_common_field_is_required(p, name);
        law_inferred_accepts_samples(p);
        let last = samples_of(values[n - 1]);
        assert forall|i: int| 0 <= i < last.len() implies object_has_member(#[trigger] last[i], name) by {
            assert(object_has_member(samples_of(values[n - 1])[i], name));
        }
        lemma_absorbed_all_keeps_required(inferred(p), last, name);
    }
}

// ---------------------------------------------------------------------------
// The fields of a merge, in order
// ---------------------------------------------------------------------------

/// The field names, in order.
pub open spec fn names(fs: Seq<(Seq<char>, FieldView)>) -> Seq<Seq<char>> {
    fs.map_values(|p: (Seq<char>, FieldView)| p.0)
}

/// The names of `ks` that are not in `seen`, in order.
pub open spec fn fresh(ks: Seq<Seq<char>>, seen: Seq<Seq<char>>) -> Seq<Seq<char>>
    decreases ks.len(),
{
    if ks.len() == 0 {
        Seq::empty()
    } else {
        fresh(ks.subrange(0, ks.len() - 1), seen) + (if seen.contains(ks[ks.len() - 1]) {
            Seq::empty()
        } else {
            seq![ks[ks.len() - 1]]
        })
    }
}

/// A name is among the fields exactly when it is among their names.
pub proof fn lemma_names_has_key(fs: Seq<(Seq<char>, FieldView)>, k: Seq<char>)
    ensures
        names(fs).contains(k) == has_key(fs, k),
{
    if has_key(fs, k) {
        let i = choose|i: int| #![trigger fs[i]] 0 <= i < fs.len() && fs[i].0 == k;
        assert(names(fs)[i] == k);
    }
    if names(fs).contains(k) {
        let i = choose|i: int| 0 <= i < names(fs).len() && names(fs)[i] == k;
        assert(fs[i].0 == k);
    }
}

/// Merging fields with distinct names keeps the old names first, then the
/// new names in the order they come.
pub proof fn lemma_merged_fields_names(xs: Seq<(Seq<char>, FieldView)>, ys: Seq<(Seq<char>, FieldView)>)
    requires
        keys_distinct(xs),
        keys_distinct(ys),
    ensures
        names(merged_fields(xs, ys)) == names(xs) + fresh(names(ys), names(xs)),
    decreases ys.len(),
{
    if ys.len() == 0 {
        assert(names(xs) + fresh(names(ys), names(xs)) =~= names(xs));
    } else {
        let n = ys.len();
        let p = ys.subrange(0, n - 1);
        lemma_distinct_prefix(ys);
        lemma_merged_fields_names(xs, p);
        lemma_merged_fields_named(xs, p);
        let acc = merged_fields(xs, p);
        let k0 = ys[n - 1].0;
        assert(names(ys).subrange(0, n - 1) =~= names(p));
        lemma_names_has_key(xs, k0);
        lemma_names_has_key(acc, k0);
        if has_key(acc, k0) {
            let i = key_pos(acc, k0);
            crate::lemmas::lemma_key_pos(acc, k0);
            assert(names(merged_fields(xs, ys)) =~= names(acc));
            assert(fresh(names(ys), names(xs)) =~= fresh(names(p), names(xs)));
        } else {
            assert(names(merged_fields(xs, ys)) =~= names(acc).push(k0));
            assert(fresh(names(ys), names(xs)) =~= fresh(names(p), names(xs)).push(k0));
        }
    }
}

/// Merging two objects with distinct field names: the total is the sum of
/// the totals; the names are the first object's, then the second's that
/// are new, in their order; a name on both sides has its counts added and
/// its shapes merged, any other keeps its field.
pub proof fn law_merge_objects(a: ShapeView, b: ShapeView)
    requires
        a.object is Some,
        b.object is Some,
        keys_distinct(a.object->0.fields),
        keys_distinct(b.object->0.fields),
    ensures
        merged(a, b).object->0.total == a.object->0.total + b.object->0.total,
        names(merged(a, b).object->0.fields) == names(a.object->0.fields) + fresh(
            names(b.object->0.fields),
            names(a.object->0.fields),
        ),
        forall|k: Seq<char>|
            #[trigger] has_key(merged(a, b).object->0.fields, k) ==> field_of(merged(a, b).object->0.fields, k)
                == combined(a.object->0.fields, b.object->0.fields, k),
{
    lemma_merged_fields_names(a.object->0.fields, b.object->0.fields);
    lemma_merged_fields_named(a.object->0.fields, b.object->0.fields);
}

// ---------------------------------------------------------------------------
// Merging is associative
// ---------------------------------------------------------------------------

/// Merging is associative when neither the second nor the third shape
/// repeats a field name in any of its objects (the first may be any shape,
/// and no count or total matters): `merged(merged(a, b), c) == merged(a, merged(b, c))`.
pub proof fn law_merge_associative(a: ShapeView, b: ShapeView, c: ShapeView)
    requires
        distinct_names(b),
        distinct_names(c),
    ensures
        merged(merged(a, b), c) == merged(a, merged(b, c)),
    decreases c,
{
    if a.array is Some && b.array is Some && c.array is Some {
        law_merge_associative(*a.array->0, *b.array->0, *c.array->0);
    }
    if a.object is Some && b.object is Some && c.object is Some {
        let xs = a.object->0.fields;
        let ys = b.object->0.fields;
        let zs = c.object->0.fields;
        assert forall|x: ShapeView, y: ShapeView, i: int|
            #![trigger merged(merged(x, y), zs[i].1.shape)]
            distinct_names(y) && 0 <= i < zs.len() implies merged(merged(x, y), zs[i].1.shape) == merged(
                x,
                merged(y, zs[i].1.shape),
            ) by {
            assert(decreases_to!(c => zs[i].1.shape));
            law_merge_associative(x, y, zs[i].1.shape);
        }
        lemma_fields_assoc(xs, ys, zs);
    }
}

// ---------------------------------------------------------------------------
// Observing a value is merging its one-sample shape
// ---------------------------------------------------------------------------

/// The object shape of one observation, before its members.
pub open spec fn one_object() -> ObjectView {
    ObjectView { total: 1, fields: Seq::empty() }
}

/// Observing an object's members leaves the object's total as it was.
pub proof fn lemma_members_total(o: ObjectView, es: Seq<(String, JsonValue)>)
    ensures
        absorbed_members(o, es).total == o.total,
    decreases es,
{
    if es.len() > 0 {
        lemma_members_total(o, es.subrange(0, es.len() - 1));
    }
}

/// Observing an object raises the object total by one and keeps every
/// earlier field at its position under its name; every counter of the shape
/// grows or stays.
pub proof fn law_absorb_object(s: ShapeView, v: JsonValue)
    requires
        v is Object,
    ensures
        absorbed(s, v).object is Some,
        absorbed(s, v).object->0.total == (match s.object {
            Some(o) => o.total,
            None => 0,
        }) + 1,
        s.object matches Some(o) ==> o.fields.len() <= absorbed(s, v).object->0.fields.len() && forall|i: int|
            0 <= i < o.fields.len() ==> #[trigger] absorbed(s, v).object->0.fields[i].0 == o.fields[i].0,
        extends(s, absorbed(s, v)),
{
    lemma_members_total(object_opened(s), v->Object_0@);
    crate::lemmas::lemma_absorbed_extends(s, v);
}

/// Observing one object's members is merging in the fields of that object alone.
pub proof fn lemma_members_is_merge(o: ObjectView, es: Seq<(String, JsonValue)>)
    ensures
        absorbed_members(o, es).fields == merged_fields(o.fields, absorbed_members(one_object(), es).fields),
    decreases es,
{
    if es.len() > 0 {
        let n = es.len();
        let p = es.subrange(0, n - 1);
        let k0 = es[n - 1].0@;
        let v0 = es[n - 1].1;
        lemma_members_is_merge(o, p);
        let acc = absorbed_members(o, p);
        let gp = absorbed_members(one_object(), p).fields;
        let g = absorbed_members(one_object(), es).fields;
        if !key_among(p, p.len() as int, k0) {
            lemma_absorbed_members_named(one_object(), p);
            assert(!has_key(gp, k0));
            let e = (k0, FieldView { shape: absorbed(empty_view(), v0), count: 1 });
            assert(g == gp.push(e));
            assert(g.subrange(0, g.len() - 1) =~= gp);
            if has_key(acc.fields, k0) {
                let i = key_pos(acc.fields, k0);
                law_absorb_is_merge(acc.fields[i].1.shape, v0);
            }
        }
    }
}

/// Observing values one by one is merging in the shape of those values alone.
pub proof fn lemma_absorbed_all_is_merge(p: ShapeView, items: Seq<JsonValue>)
    ensures
        absorbed_all(p, items) == merged(p, absorbed_all(empty_view(), items)),
    decreases items,
{
    if items.len() == 0 {
        assert(merged(p, empty_view()) == p);
    } else {
        let n = items.len();
        let q = items.subrange(0, n - 1);
        let v = items[n - 1];
        let pq = absorbed_all(p, q);
        let eq = absorbed_all(empty_view(), q);
        let e = absorbed(empty_view(), v);
        lemma_absorbed_all_is_merge(p, q);
        lemma_absorbed_all_wf(empty_view(), q);
        law_absorb_keeps_wf(empty_view(), v);
        law_absorb_is_merge(pq, v);
        law_absorb_is_merge(eq, v);
        lemma_wf_distinct(eq);
        lemma_wf_distinct(e);
        law_merge_associative(p, eq, e);
    }
}

/// Observing one more value is merging in the shape of that value alone,
/// for every shape `s`: `absorbed(s, v) == merged(s, absorbed(empty_view(), v))`.
pub proof fn law_absorb_is_merge(s: ShapeView, v: JsonValue)
    ensures
        absorbed(s, v) == merged(s, absorbed(empty_view(), v)),
    decreases v,
{
    match v {
        JsonValue::Array(items) => {
            if s.array is Some {
                lemma_absorbed_all_is_merge(*s.array->0, items@);
            }
        },
        JsonValue::Object(entries) => {
            let es = entries@;
            lemma_members_is_merge(object_opened(s), es);
            lemma_members_total(object_opened(s), es);
            lemma_members_total(one_object(), es);
        },
        _ => {},
    }
}

// ---------------------------------------------------------------------------
// The empty shape, and inferring from joined inputs
// ---------------------------------------------------------------------------

/// The shape of no samples is a two-sided identity of merging, for every shape.
pub proof fn law_merge_identity(s: ShapeView)
    ensures
        merged(s, empty_view()) == s,
        merged(empty_view(), s) == s,
{
}

/// Inferring from no values gives the shape of no samples.
pub proof fn law_inferred_nothing()
    ensures
        inferred(Seq::empty()) == empty_view(),
{
}

/// Inferring from two lists of top-level values joined end to end is merging
/// what is inferred from each: `inferred(xs + ys) == merged(inferred(xs), inferred(ys))`.
pub proof fn law_inferred_concat(xs: Seq<JsonValue>, ys: Seq<JsonValue>)
    ensures
        inferred(xs + ys) == merged(inferred(xs), inferred(ys)),
    decreases ys.len(),
{
    let x = inferred(xs);
    law_inferred_accepts_samples(xs);
    if ys.len() == 0 {
        assert(xs + ys =~= xs);
        law_merge_identity(x);
    } else {
        let n = ys.len();
        let yp = ys.subrange(0, n - 1);
        let last = samples_of(ys[n - 1]);
        let zs = xs + ys;
        assert(zs.subrange(0, zs.len() - 1) =~= xs + yp);
        assert(zs[zs.len() - 1] == ys[n - 1]);
        law_inferred_concat(xs, yp);
        let y = inferred(yp);
        law_inferred_accepts_samples(yp);
        law_merge_keeps_wf(x, y);
        let a = absorbed_all(empty_view(), last);
        lemma_absorbed_all_wf(empty_view(), last);
        // inferred(zs) == absorbed_all(merged(x, y), last)
        lemma_absorbed_all_is_merge(merged(x, y), last);
        lemma_wf_distinct(y);
        lemma_wf_distinct(a);
        law_merge_associative(x, y, a);
        lemma_absorbed_all_is_merge(y, last);
        assert(inferred(ys) == absorbed_all(y, last));
    }
}

} // verus!
