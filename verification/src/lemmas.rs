//! Facts about the shape model that the executable code and the laws use.

use vstd::prelude::*;

use crate::json::JsonValue;
use crate::json::key_among;
use crate::shape::{
    absorbed, absorbed_all, absorbed_members, fits, has_key, is_first_key, key_pos,
    merged, merged_fields, object_opened, FieldView, ObjectView, ShapeView,
};

verus! {

// ---------------------------------------------------------------------------
// Key positions
// ---------------------------------------------------------------------------

/// A field named `k` at position `i` means a first such field exists.
pub proof fn lemma_first_key_exists(fs: Seq<(Seq<char>, FieldView)>, k: Seq<char>, i: int)
    requires
        0 <= i < fs.len(),
        fs[i].0 == k,
    ensures
        exists|j: int| is_first_key(fs, k, j),
    decreases i,
{
    if exists|j: int| 0 <= j < i && fs[j].0 == k {
        let j = choose|j: int| 0 <= j < i && fs[j].0 == k;
        lemma_first_key_exists(fs, k, j);
    } else {
        assert(is_first_key(fs, k, i));
    }
}

/// When a field is named `k`, [`key_pos`] is the first such position.
pub proof fn lemma_key_pos(fs: Seq<(Seq<char>, FieldView)>, k: Seq<char>)
    requires
        has_key(fs, k),
    ensures
        is_first_key(fs, k, key_pos(fs, k)),
{
    let i = choose|i: int| #![trigger fs[i]] 0 <= i < fs.len() && fs[i].0 == k;
    lemma_first_key_exists(fs, k, i);
}

/// The first position of a name is unique.
pub proof fn lemma_first_key_unique(fs: Seq<(Seq<char>, FieldView)>, k: Seq<char>, i: int)
    requires
        is_first_key(fs, k, i),
    ensures
        has_key(fs, k),
        key_pos(fs, k) == i,
{
    lemma_key_pos(fs, k);
    let p = key_pos(fs, k);
    if p < i {
        assert(fs[p].0 != k);
    } else if i < p {
        assert(fs[i].0 != k);
    }
}

// ---------------------------------------------------------------------------
// One shape extends another
// ---------------------------------------------------------------------------

/// `b` extends `a`: every kind of `a` is in `b`, every counter of `a` is at
/// most the matching one of `b`, and `a`'s fields stand at the same
/// positions, under the same names, in `b`.
pub open spec fn extends(a: ShapeView, b: ShapeView) -> bool
    decreases a,
{
    &&& (a.object is Some ==> {
        &&& b.object is Some
        &&& a.object->0.total <= b.object->0.total
        &&& a.object->0.fields.len() <= b.object->0.fields.len()
        &&& forall|i: int|
            #![trigger a.object->0.fields[i]]
            0 <= i < a.object->0.fields.len() ==> {
                &&& b.object->0.fields[i].0 == a.object->0.fields[i].0
                &&& a.object->0.fields[i].1.count <= b.object->0.fields[i].1.count
                &&& extends(a.object->0.fields[i].1.shape, b.object->0.fields[i].1.shape)
            }
    })
    &&& (a.array is Some ==> {
        &&& b.array is Some
        &&& extends(*a.array->0, *b.array->0)
    })
}

/// Field-wise [`extends`], for the fields of `xs` and the first fields of `ys`.
pub open spec fn fields_extend(xs: Seq<(Seq<char>, FieldView)>, ys: Seq<(Seq<char>, FieldView)>) -> bool {
    &&& xs.len() <= ys.len()
    &&& forall|i: int|
        #![trigger xs[i]]
        0 <= i < xs.len() ==> {
            &&& ys[i].0 == xs[i].0
            &&& xs[i].1.count <= ys[i].1.count
            &&& extends(xs[i].1.shape, ys[i].1.shape)
        }
}

pub proof fn lemma_extends_refl(a: ShapeView)
    ensures
        extends(a, a),
    decreases a,
{
    if a.object is Some {
        lemma_fields_extend_refl(a.object->0.fields);
    }
    if a.array is Some {
        lemma_extends_refl(*a.array->0);
    }
}

pub proof fn lemma_fields_extend_refl(xs: Seq<(Seq<char>, FieldView)>)
    ensures
        fields_extend(xs, xs),
    decreases xs,
{
    assert forall|i: int| 0 <= i < xs.len() implies extends(xs[i].1.shape, xs[i].1.shape) by {
        lemma_extends_refl(xs[i].1.shape);
    }
}

pub proof fn lemma_extends_trans(a: ShapeView, b: ShapeView, c: ShapeView)
    requires
        extends(a, b),
        extends(b, c),
    ensures
        extends(a, c),
    decreases a,
{
    if let Some(x) = a.object {
        lemma_fields_extend_trans(x.fields, b.object->0.fields, c.object->0.fields);
    }
    if let Some(p) = a.array {
        lemma_extends_trans(*p, *b.array->0, *c.array->0);
    }
}

pub proof fn lemma_fields_extend_trans(
    xs: Seq<(Seq<char>, FieldView)>,
    ys: Seq<(Seq<char>, FieldView)>,
    zs: Seq<(Seq<char>, FieldView)>,
)
    requires
        fields_extend(xs, ys),
        fields_extend(ys, zs),
    ensures
        fields_extend(xs, zs),
    decreases xs,
{
    assert forall|i: int| #![trigger xs[i]] 0 <= i < xs.len() implies {
        &&& zs[i].0 == xs[i].0
        &&& xs[i].1.count <= zs[i].1.count
        &&& extends(xs[i].1.shape, zs[i].1.shape)
    } by {
        assert(ys[i].0 == xs[i].0);
        assert(zs[i].0 == ys[i].0);
        lemma_extends_trans(xs[i].1.shape, ys[i].1.shape, zs[i].1.shape);
    }
}

/// Counters that fit in `b` fit in any shape that `b` extends.
pub proof fn lemma_fits_down(a: ShapeView, b: ShapeView)
    requires
        extends(a, b),
        fits(b),
    ensures
        fits(a),
    decreases a,
{
    if let Some(x) = a.object {
        let y = b.object->0;
        assert forall|i: int| #![trigger x.fields[i]] 0 <= i < x.fields.len() implies {
            &&& x.fields[i].1.count <= u64::MAX
            &&& fits(x.fields[i].1.shape)
        } by {
            assert(y.fields[i].0 == x.fields[i].0);
            assert(fits(y.fields[i].1.shape));
            lemma_fits_down(x.fields[i].1.shape, y.fields[i].1.shape);
        }
    }
    if let Some(p) = a.array {
        lemma_fits_down(*p, *b.array->0);
    }
}


// ---------------------------------------------------------------------------
// Merging extends
// ---------------------------------------------------------------------------

/// Merging only adds: `merged(a, b)` extends `a`.
pub proof fn lemma_merged_extends(a: ShapeView, b: ShapeView)
    ensures
        extends(a, merged(a, b)),
    decreases b, 2int,
{
    if a.object is Some {
        if b.object is Some {
            lemma_merged_fields_extend(a.object->0.fields, b.object->0.fields);
        } else {
            lemma_fields_extend_refl(a.object->0.fields);
        }
    }
    if a.array is Some {
        if b.array is Some {
            lemma_merged_extends(*a.array->0, *b.array->0);
        } else {
            lemma_extends_refl(*a.array->0);
        }
    }
}

/// Merging fields only adds: `merged_fields(xs, ys)` extends `xs`.
pub proof fn lemma_merged_fields_extend(xs: Seq<(Seq<char>, FieldView)>, ys: Seq<(Seq<char>, FieldView)>)
    ensures
        fields_extend(xs, merged_fields(xs, ys)),
    decreases ys, 1int,
{
    if ys.len() == 0 {
        lemma_fields_extend_refl(xs);
    } else {
        let prev = ys.subrange(0, ys.len() - 1);
        lemma_merged_fields_extend(xs, prev);
        lemma_merged_fields_step(xs, ys);
        lemma_fields_extend_trans(xs, merged_fields(xs, prev), merged_fields(xs, ys));
    }
}

/// Merging in one more field only adds.
pub proof fn lemma_merged_fields_step(xs: Seq<(Seq<char>, FieldView)>, ys: Seq<(Seq<char>, FieldView)>)
    requires
        ys.len() > 0,
    ensures
        fields_extend(merged_fields(xs, ys.subrange(0, ys.len() - 1)), merged_fields(xs, ys)),
    decreases ys, 0int,
{
    let acc = merged_fields(xs, ys.subrange(0, ys.len() - 1));
    let k = ys[ys.len() - 1].0;
    let f = ys[ys.len() - 1].1;
    let res = merged_fields(xs, ys);
    if has_key(acc, k) {
        let i = key_pos(acc, k);
        lemma_key_pos(acc, k);
        lemma_merged_extends(acc[i].1.shape, f.shape);
        assert forall|j: int| #![trigger acc[j]] 0 <= j < acc.len() implies {
            &&& res[j].0 == acc[j].0
            &&& acc[j].1.count <= res[j].1.count
            &&& extends(acc[j].1.shape, res[j].1.shape)
        } by {
            if j != i {
                lemma_extends_refl(acc[j].1.shape);
            }
        }
    } else {
        assert forall|j: int| #![trigger acc[j]] 0 <= j < acc.len() implies {
            &&& res[j].0 == acc[j].0
            &&& acc[j].1.count <= res[j].1.count
            &&& extends(acc[j].1.shape, res[j].1.shape)
        } by {
            lemma_extends_refl(acc[j].1.shape);
        }
    }
}

/// Merging a longer prefix of `ys` extends merging a shorter one.
pub proof fn lemma_merged_fields_prefix(
    xs: Seq<(Seq<char>, FieldView)>,
    ys: Seq<(Seq<char>, FieldView)>,
    m: int,
    n: int,
)
    requires
        0 <= m <= n <= ys.len(),
    ensures
        fields_extend(merged_fields(xs, ys.subrange(0, m)), merged_fields(xs, ys.subrange(0, n))),
    decreases n - m,
{
    if m == n {
        lemma_fields_extend_refl(merged_fields(xs, ys.subrange(0, m)));
    } else {
        lemma_merged_fields_prefix(xs, ys, m, n - 1);
        let yn = ys.subrange(0, n);
        assert(yn.subrange(0, n - 1) =~= ys.subrange(0, n - 1));
        lemma_merged_fields_step(xs, yn);
        lemma_fields_extend_trans(
            merged_fields(xs, ys.subrange(0, m)),
            merged_fields(xs, ys.subrange(0, n - 1)),
            merged_fields(xs, yn),
        );
    }
}

// ---------------------------------------------------------------------------
// Absorbing extends
// ---------------------------------------------------------------------------

/// Observing one more value only adds: `absorbed(s, v)` extends `s`.
pub proof fn lemma_absorbed_extends(s: ShapeView, v: JsonValue)
    ensures
        extends(s, absorbed(s, v)),
    decreases v, 2int,
{
    match v {
        JsonValue::Array(items) => {
            if s.object is Some {
                lemma_fields_extend_refl(s.object->0.fields);
            }
            if s.array is Some {
                lemma_absorbed_all_extends(*s.array->0, items@);
            }
        },
        JsonValue::Object(entries) => {
            lemma_absorbed_members_extend(object_opened(s), entries@);
            if s.array is Some {
                lemma_extends_refl(*s.array->0);
            }
        },
        _ => {
            lemma_extends_refl(s);
        },
    }
}

/// Observing several values only adds.
pub proof fn lemma_absorbed_all_extends(s: ShapeView, items: Seq<JsonValue>)
    ensures
        extends(s, absorbed_all(s, items)),
    decreases items, 1int,
{
    if items.len() == 0 {
        lemma_extends_refl(s);
    } else {
        let prev = items.subrange(0, items.len() - 1);
        lemma_absorbed_all_extends(s, prev);
        lemma_absorbed_extends(absorbed_all(s, prev), items[items.len() - 1]);
        lemma_extends_trans(s, absorbed_all(s, prev), absorbed_all(s, items));
    }
}

/// Observing the members of an object only adds fields and counts, and
/// leaves the object's total as it is.
pub proof fn lemma_absorbed_members_extend(o: ObjectView, entries: Seq<(String, JsonValue)>)
    ensures
        fields_extend(o.fields, absorbed_members(o, entries).fields),
        absorbed_members(o, entries).total == o.total,
    decreases entries, 1int,
{
    if entries.len() == 0 {
        lemma_fields_extend_refl(o.fields);
    } else {
        let prev = entries.subrange(0, entries.len() - 1);
        lemma_absorbed_members_extend(o, prev);
        lemma_absorbed_members_step(o, entries);
        lemma_fields_extend_trans(
            o.fields,
            absorbed_members(o, prev).fields,
            absorbed_members(o, entries).fields,
        );
    }
}

/// Observing one more member only adds.
pub proof fn lemma_absorbed_members_step(o: ObjectView, entries: Seq<(String, JsonValue)>)
    requires
        entries.len() > 0,
    ensures
        fields_extend(
            absorbed_members(o, entries.subrange(0, entries.len() - 1)).fields,
            absorbed_members(o, entries).fields,
        ),
        absorbed_members(o, entries).total == absorbed_members(o, entries.subrange(0, entries.len() - 1)).total,
    decreases entries, 0int,
{
    let prev = entries.subrange(0, entries.len() - 1);
    let acc = absorbed_members(o, prev);
    let k = entries[entries.len() - 1].0@;
    let v = entries[entries.len() - 1].1;
    let res = absorbed_members(o, entries);
    if !key_among(prev, prev.len() as int, k) && has_key(acc.fields, k) {
        let i = key_pos(acc.fields, k);
        lemma_key_pos(acc.fields, k);
        lemma_absorbed_extends(acc.fields[i].1.shape, v);
        assert forall|j: int| #![trigger acc.fields[j]] 0 <= j < acc.fields.len() implies {
            &&& res.fields[j].0 == acc.fields[j].0
            &&& acc.fields[j].1.count <= res.fields[j].1.count
            &&& extends(acc.fields[j].1.shape, res.fields[j].1.shape)
        } by {
            if j != i {
                lemma_extends_refl(acc.fields[j].1.shape);
            }
        }
    } else {
        assert forall|j: int| #![trigger acc.fields[j]] 0 <= j < acc.fields.len() implies {
            &&& res.fields[j].0 == acc.fields[j].0
            &&& acc.fields[j].1.count <= res.fields[j].1.count
            &&& extends(acc.fields[j].1.shape, res.fields[j].1.shape)
        } by {
            lemma_extends_refl(acc.fields[j].1.shape);
        }
    }
}

/// Observing a longer prefix of `items` extends observing a shorter one.
pub proof fn lemma_absorbed_all_prefix(s: ShapeView, items: Seq<JsonValue>, m: int, n: int)
    requires
        0 <= m <= n <= items.len(),
    ensures
        extends(absorbed_all(s, items.subrange(0, m)), absorbed_all(s, items.subrange(0, n))),
    decreases n - m,
{
    if m == n {
        lemma_extends_refl(absorbed_all(s, items.subrange(0, m)));
    } else {
        lemma_absorbed_all_prefix(s, items, m, n - 1);
        let it = items.subrange(0, n);
        assert(it.subrange(0, n - 1) =~= items.subrange(0, n - 1));
        lemma_absorbed_extends(absorbed_all(s, items.subrange(0, n - 1)), items[n - 1]);
        lemma_extends_trans(
            absorbed_all(s, items.subrange(0, m)),
            absorbed_all(s, items.subrange(0, n - 1)),
            absorbed_all(s, it),
        );
    }
}

/// Observing a longer prefix of an object's members extends observing a shorter one.
pub proof fn lemma_absorbed_members_prefix(o: ObjectView, entries: Seq<(String, JsonValue)>, m: int, n: int)
    requires
        0 <= m <= n <= entries.len(),
    ensures
        fields_extend(
            absorbed_members(o, entries.subrange(0, m)).fields,
            absorbed_members(o, entries.subrange(0, n)).fields,
        ),
        absorbed_members(o, entries.subrange(0, m)).total == o.total,
        absorbed_members(o, entries.subrange(0, n)).total == o.total,
    decreases n - m,
{
    lemma_absorbed_members_extend(o, entries.subrange(0, m));
    lemma_absorbed_members_extend(o, entries.subrange(0, n));
    if m == n {
        lemma_fields_extend_refl(absorbed_members(o, entries.subrange(0, m)).fields);
    } else {
        lemma_absorbed_members_prefix(o, entries, m, n - 1);
        let en = entries.subrange(0, n);
        assert(en.subrange(0, n - 1) =~= entries.subrange(0, n - 1));
        lemma_absorbed_members_step(o, en);
        lemma_fields_extend_trans(
            absorbed_members(o, entries.subrange(0, m)).fields,
            absorbed_members(o, entries.subrange(0, n - 1)).fields,
            absorbed_members(o, en).fields,
        );
    }
}

} // verus!
