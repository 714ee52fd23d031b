//! Merging field lists position by position, where the fields merged into
//! may repeat a name: what [`merged_fields`] keeps, where a name lands, and
//! that merging in two distinct-named lists one after the other is merging
//! in their merge.

use vstd::prelude::*;

use crate::lemmas::{lemma_first_key_unique, lemma_key_pos};
use crate::laws::{lemma_distinct_pos, lemma_merged_fields_named};
use crate::shape::{has_key, is_first_key, key_pos, keys_distinct, merged, merged_fields, wf, FieldView, ShapeView};

verus! {

/// Two fields merged: counts added, shapes merged.
pub open spec fn field_merge(a: FieldView, b: FieldView) -> FieldView {
    FieldView { shape: merged(a.shape, b.shape), count: a.count + b.count }
}

/// What the field `g`, merged into `xs` under the name `k`, becomes: merged
/// with the first field of `xs` named `k` if there is one, else `g` itself.
pub open spec fn joined(xs: Seq<(Seq<char>, FieldView)>, k: Seq<char>, g: FieldView) -> FieldView {
    if has_key(xs, k) {
        field_merge(xs[key_pos(xs, k)].1, g)
    } else {
        g
    }
}

/// Replacing a field by one of the same name moves no name.
pub proof fn lemma_update_same_name(s: Seq<(Seq<char>, FieldView)>, i: int, e: (Seq<char>, FieldView), k: Seq<char>)
    requires
        0 <= i < s.len(),
        s[i].0 == e.0,
    ensures
        has_key(s.update(i, e), k) == has_key(s, k),
        has_key(s, k) ==> key_pos(s.update(i, e), k) == key_pos(s, k),
{
    let t = s.update(i, e);
    if has_key(s, k) {
        lemma_key_pos(s, k);
        let p = key_pos(s, k);
        assert(is_first_key(t, k, p));
        lemma_first_key_unique(t, k, p);
    }
    if has_key(t, k) {
        let j = choose|j: int| #![trigger t[j]] 0 <= j < t.len() && t[j].0 == k;
        assert(s[j].0 == k);
    }
}

/// Appending a field moves no name already there; a new name lands last.
pub proof fn lemma_push_name(s: Seq<(Seq<char>, FieldView)>, e: (Seq<char>, FieldView), k: Seq<char>)
    ensures
        has_key(s.push(e), k) == (has_key(s, k) || e.0 == k),
        has_key(s, k) ==> key_pos(s.push(e), k) == key_pos(s, k),
        !has_key(s, k) && e.0 == k ==> key_pos(s.push(e), k) == s.len(),
{
    let t = s.push(e);
    if has_key(s, k) {
        lemma_key_pos(s, k);
        let p = key_pos(s, k);
        assert(is_first_key(t, k, p));
        lemma_first_key_unique(t, k, p);
    } else if e.0 == k {
        assert(t[s.len() as int] == e);
        assert(is_first_key(t, k, s.len() as int));
        lemma_first_key_unique(t, k, s.len() as int);
    }
    if has_key(t, k) {
        let j = choose|j: int| #![trigger t[j]] 0 <= j < t.len() && t[j].0 == k;
        if j < s.len() {
            assert(s[j] == t[j]);
        }
    }
}

/// The names after merging are those of either side.
pub proof fn lemma_merged_names(xs: Seq<(Seq<char>, FieldView)>, ws: Seq<(Seq<char>, FieldView)>, k: Seq<char>)
    ensures
        has_key(merged_fields(xs, ws), k) == (has_key(xs, k) || has_key(ws, k)),
    decreases ws.len(),
{
    if ws.len() > 0 {
        let n = ws.len();
        let p = ws.subrange(0, n - 1);
        let w = ws[n - 1];
        lemma_merged_names(xs, p, k);
        let acc = merged_fields(xs, p);
        if has_key(acc, w.0) {
            lemma_key_pos(acc, w.0);
            let i = key_pos(acc, w.0);
            let e = (acc[i].0, FieldView { shape: merged(acc[i].1.shape, w.1.shape), count: acc[i].1.count + w.1.count });
            lemma_update_same_name(acc, i, e, k);
        } else {
            lemma_push_name(acc, w, k);
        }
        if has_key(ws, k) {
            let j = choose|j: int| #![trigger ws[j]] 0 <= j < ws.len() && ws[j].0 == k;
            if j < n - 1 {
                assert(p[j] == ws[j]);
            }
        }
        if has_key(p, k) {
            let j = choose|j: int| #![trigger p[j]] 0 <= j < p.len() && p[j].0 == k;
            assert(ws[j] == p[j]);
        }
    }
}

/// A name of `xs` that nothing merged in carries stays where it was, untouched.
pub proof fn lemma_merged_untouched(xs: Seq<(Seq<char>, FieldView)>, ws: Seq<(Seq<char>, FieldView)>, k: Seq<char>)
    requires
        has_key(xs, k),
        !has_key(ws, k),
    ensures
        has_key(merged_fields(xs, ws), k),
        key_pos(merged_fields(xs, ws), k) == key_pos(xs, k),
        merged_fields(xs, ws)[key_pos(xs, k)] == xs[key_pos(xs, k)],
    decreases ws.len(),
{
    lemma_merged_names(xs, ws, k);
    lemma_key_pos(xs, k);
    if ws.len() > 0 {
        let n = ws.len();
        let p = ws.subrange(0, n - 1);
        let w = ws[n - 1];
        assert(!has_key(p, k)) by {
            if has_key(p, k) {
                let j = choose|j: int| #![trigger p[j]] 0 <= j < p.len() && p[j].0 == k;
                assert(ws[j] == p[j]);
            }
        }
        assert(w.0 != k);
        lemma_merged_untouched(xs, p, k);
        let acc = merged_fields(xs, p);
        let q = key_pos(xs, k);
        lemma_key_pos(acc, k);
        if has_key(acc, w.0) {
            lemma_key_pos(acc, w.0);
            let i = key_pos(acc, w.0);
            let e = (acc[i].0, FieldView { shape: merged(acc[i].1.shape, w.1.shape), count: acc[i].1.count + w.1.count });
            lemma_update_same_name(acc, i, e, k);
            assert(i != q);
        } else {
            lemma_push_name(acc, w, k);
        }
    }
}

/// Merging in a distinct-named list with one field replaced is merging in
/// the list, with the field its name lands on replaced accordingly.
pub proof fn lemma_merged_update(xs: Seq<(Seq<char>, FieldView)>, ws: Seq<(Seq<char>, FieldView)>, j: int, g: FieldView)
    requires
        keys_distinct(ws),
        0 <= j < ws.len(),
    ensures
        has_key(merged_fields(xs, ws), ws[j].0),
        0 <= key_pos(merged_fields(xs, ws), ws[j].0) < merged_fields(xs, ws).len(),
        merged_fields(xs, ws)[key_pos(merged_fields(xs, ws), ws[j].0)].0 == ws[j].0,
        merged_fields(xs, ws.update(j, (ws[j].0, g))) == merged_fields(xs, ws).update(
            key_pos(merged_fields(xs, ws), ws[j].0),
            (ws[j].0, joined(xs, ws[j].0, g)),
        ),
    decreases ws.len(),
{
    let k = ws[j].0;
    let n = ws.len();
    let p = ws.subrange(0, n - 1);
    let w = ws[n - 1];
    let m = merged_fields(xs, ws);
    let ws2 = ws.update(j, (k, g));
    let a = merged_fields(xs, p);
    assert(keys_distinct(p));
    lemma_merged_names(xs, ws, k);
    assert(ws[j].0 == k);
    lemma_key_pos(m, k);
    assert(ws2.subrange(0, n - 1) =~= if j == n - 1 { p } else { p.update(j, (k, g)) });
    if j == n - 1 {
        assert(!has_key(p, k)) by {
            if has_key(p, k) {
                let i = choose|i: int| #![trigger p[i]] 0 <= i < p.len() && p[i].0 == k;
                assert(ws[i] == p[i]);
            }
        }
        lemma_merged_names(xs, p, k);
        if has_key(xs, k) {
            lemma_merged_untouched(xs, p, k);
            lemma_key_pos(a, k);
            let q = key_pos(a, k);
            let e = (a[q].0, FieldView { shape: merged(a[q].1.shape, w.1.shape), count: a[q].1.count + w.1.count });
            lemma_update_same_name(a, q, e, k);
            assert(merged_fields(xs, ws2) =~= m.update(q, (k, joined(xs, k, g))));
        } else {
            lemma_push_name(a, w, k);
            assert(merged_fields(xs, ws2) =~= m.update(a.len() as int, (k, joined(xs, k, g))));
        }
    } else {
        assert(p[j] == ws[j]);
        lemma_merged_update(xs, p, j, g);
        let pk = key_pos(a, k);
        let x = (k, joined(xs, k, g));
        let t = a.update(pk, x);
        assert(merged_fields(xs, p.update(j, (k, g))) == t);
        assert(w.0 != k);
        lemma_update_same_name(a, pk, x, w.0);
        if has_key(a, w.0) {
            lemma_key_pos(a, w.0);
            let q = key_pos(a, w.0);
            assert(q != pk);
            let y = (a[q].0, FieldView { shape: merged(a[q].1.shape, w.1.shape), count: a[q].1.count + w.1.count });
            assert(t[q] == a[q]);
            lemma_update_same_name(a, q, y, k);
            assert(merged_fields(xs, ws2) =~= m.update(pk, x));
        } else {
            lemma_push_name(a, w, k);
            assert(merged_fields(xs, ws2) =~= m.update(pk, x));
        }
    }
}

/// No object anywhere in the shape repeats a field name.
pub open spec fn distinct_names(s: ShapeView) -> bool
    decreases s,
{
    &&& (s.object matches Some(o) ==> {
        &&& keys_distinct(o.fields)
        &&& forall|i: int| #![trigger o.fields[i]] 0 <= i < o.fields.len() ==> distinct_names(o.fields[i].1.shape)
    })
    &&& (s.array matches Some(p) ==> distinct_names(*p))
}

/// Well-formed shapes repeat no field name.
pub proof fn lemma_wf_distinct(s: ShapeView)
    requires
        wf(s),
    ensures
        distinct_names(s),
    decreases s,
{
    if let Some(o) = s.object {
        assert forall|i: int| #![trigger o.fields[i]] 0 <= i < o.fields.len() implies distinct_names(o.fields[i].1.shape) by {
            assert(decreases_to!(s => o.fields[i].1.shape));
            lemma_wf_distinct(o.fields[i].1.shape);
        }
    }
    if let Some(p) = s.array {
        lemma_wf_distinct(*p);
    }
}

/// Merging two shapes that repeat no field name gives one that repeats none.
pub proof fn law_merge_keeps_distinct(a: ShapeView, b: ShapeView)
    requires
        distinct_names(a),
        distinct_names(b),
    ensures
        distinct_names(merged(a, b)),
    decreases b,
{
    if a.object is Some && b.object is Some {
        let x = a.object->0;
        let y = b.object->0;
        let r = merged_fields(x.fields, y.fields);
        lemma_merged_fields_named(x.fields, y.fields);
        assert forall|j: int| #![trigger r[j]] 0 <= j < r.len() implies distinct_names(r[j].1.shape) by {
            let k = r[j].0;
            assert(has_key(r, k));
            lemma_distinct_pos(r, k, j);
            if has_key(x.fields, k) {
                lemma_key_pos(x.fields, k);
            }
            if has_key(y.fields, k) {
                lemma_key_pos(y.fields, k);
                let yi = key_pos(y.fields, k);
                if has_key(x.fields, k) {
                    assert(decreases_to!(b => y.fields[yi].1.shape));
                    law_merge_keeps_distinct(x.fields[key_pos(x.fields, k)].1.shape, y.fields[yi].1.shape);
                }
            }
        }
    }
    if a.array is Some && b.array is Some {
        law_merge_keeps_distinct(*a.array->0, *b.array->0);
    }
}

/// No field shape of the list repeats a field name.
pub open spec fn shapes_distinct(fs: Seq<(Seq<char>, FieldView)>) -> bool {
    forall|i: int| #![trigger fs[i]] 0 <= i < fs.len() ==> distinct_names(fs[i].1.shape)
}

/// Merging into any fields the distinct-named `ys` and then `zs` is merging
/// in `ys` merged with `zs`, given that shape merging is associative for the
/// field shapes involved.
pub proof fn lemma_fields_assoc(
    xs: Seq<(Seq<char>, FieldView)>,
    ys: Seq<(Seq<char>, FieldView)>,
    zs: Seq<(Seq<char>, FieldView)>,
)
    requires
        keys_distinct(ys),
        keys_distinct(zs),
        shapes_distinct(ys),
        shapes_distinct(zs),
        forall|x: ShapeView, y: ShapeView, i: int|
            #![trigger merged(merged(x, y), zs[i].1.shape)]
            distinct_names(y) && 0 <= i < zs.len() ==> merged(merged(x, y), zs[i].1.shape) == merged(x, merged(y, zs[i].1.shape)),
    ensures
        merged_fields(merged_fields(xs, ys), zs) == merged_fields(xs, merged_fields(ys, zs)),
    decreases zs.len(),
{
    if zs.len() > 0 {
        let n = zs.len();
        let p = zs.subrange(0, n - 1);
        let z = zs[n - 1];
        assert(keys_distinct(p));
        assert forall|x: ShapeView, y: ShapeView, i: int|
            #![trigger merged(merged(x, y), p[i].1.shape)]
            distinct_names(y) && 0 <= i < p.len() implies merged(merged(x, y), p[i].1.shape) == merged(x, merged(y, p[i].1.shape)) by {
            assert(p[i] == zs[i]);
        }
        assert(shapes_distinct(p)) by {
            assert forall|i: int| #![trigger p[i]] 0 <= i < p.len() implies distinct_names(p[i].1.shape) by {
                assert(p[i] == zs[i]);
            }
        }
        lemma_fields_assoc(xs, ys, p);
        let w = merged_fields(ys, p);
        lemma_merged_fields_named(ys, p);
        lemma_distinct_merged_shapes(ys, p);
        let m = merged_fields(xs, w);
        if has_key(w, z.0) {
            lemma_key_pos(w, z.0);
            let j = key_pos(w, z.0);
            let g = field_merge(w[j].1, z.1);
            assert(merged_fields(ys, zs) == w.update(j, (w[j].0, g)));
            lemma_merged_update(xs, w, j, g);
            lemma_merged_update(xs, w, j, w[j].1);
            assert(w.update(j, (w[j].0, w[j].1)) =~= w);
            let pk = key_pos(m, z.0);
            assert(m[pk] == (z.0, joined(xs, z.0, w[j].1)));
            if has_key(xs, z.0) {
                lemma_key_pos(xs, z.0);
                let xf = xs[key_pos(xs, z.0)].1;
                assert(distinct_names(w[j].1.shape));
                assert(merged(merged(xf.shape, w[j].1.shape), zs[n - 1].1.shape) == merged(
                    xf.shape,
                    merged(w[j].1.shape, zs[n - 1].1.shape),
                ));
            }
        } else {
            assert(merged_fields(ys, zs) == w.push(z));
            let wz = w.push(z);
            assert(wz.subrange(0, wz.len() - 1) =~= w);
        }
    }
}

/// Merging fields whose shapes repeat no field name gives such fields.
pub proof fn lemma_distinct_merged_shapes(xs: Seq<(Seq<char>, FieldView)>, ys: Seq<(Seq<char>, FieldView)>)
    requires
        shapes_distinct(xs),
        shapes_distinct(ys),
    ensures
        shapes_distinct(merged_fields(xs, ys)),
    decreases ys.len(),
{
    if ys.len() > 0 {
        let n = ys.len();
        let p = ys.subrange(0, n - 1);
        assert(shapes_distinct(p)) by {
            assert forall|i: int| #![trigger p[i]] 0 <= i < p.len() implies distinct_names(p[i].1.shape) by {
                assert(p[i] == ys[i]);
            }
        }
        lemma_distinct_merged_shapes(xs, p);
        let acc = merged_fields(xs, p);
        if has_key(acc, ys[n - 1].0) {
            lemma_key_pos(acc, ys[n - 1].0);
            let i = key_pos(acc, ys[n - 1].0);
            law_merge_keeps_distinct(acc[i].1.shape, ys[n - 1].1.shape);
        }
    }
}

} // verus!
