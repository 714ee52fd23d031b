//! degu — infer JSON Schema, TypeScript, and Zod from sample JSON.

pub mod bounds;
pub mod emit;
pub mod json;
pub mod laws;
pub mod lemmas;
pub mod positions;
pub mod shape;
pub mod text;

pub use bounds::try_infer_from_values;
pub use emit::{EmitOptions, Format};
pub use json::{parse_json, JsonValue};
pub use shape::Shape;

use vstd::prelude::*;

use crate::lemmas::{
    extends, lemma_absorbed_all_extends, lemma_absorbed_all_prefix, lemma_extends_refl,
    lemma_extends_trans, lemma_fits_down,
};
use crate::shape::{absorbed, absorbed_all, empty_view, fits, ShapeView};

verus! {

/// Every item is a JSON object.
pub open spec fn all_objects(items: Seq<JsonValue>) -> bool {
    forall|i: int| 0 <= i < items.len() ==> #[trigger] items[i] is Object
}

/// The samples one top-level value stands for: the elements of a non-empty
/// array of objects (the common "array of records" case), else the value itself.
pub open spec fn samples_of(v: JsonValue) -> Seq<JsonValue> {
    match v {
        JsonValue::Array(items) => if items@.len() > 0 && all_objects(items@) {
            items@
        } else {
            seq![v]
        },
        _ => seq![v],
    }
}

/// The shape inferred from top-level values, in order.
pub open spec fn inferred(values: Seq<JsonValue>) -> ShapeView
    decreases values.len(),
{
    if values.len() == 0 {
        empty_view()
    } else {
        absorbed_all(inferred(values.subrange(0, values.len() - 1)), samples_of(values[values.len() - 1]))
    }
}

/// Inferring from more top-level values extends inferring from fewer.
pub proof fn lemma_inferred_prefix(values: Seq<JsonValue>, m: int, n: int)
    requires
        0 <= m <= n <= values.len(),
    ensures
        extends(inferred(values.subrange(0, m)), inferred(values.subrange(0, n))),
    decreases n - m,
{
    if m == n {
        lemma_extends_refl(inferred(values.subrange(0, m)));
    } else {
        lemma_inferred_prefix(values, m, n - 1);
        let vn = values.subrange(0, n);
        assert(vn.subrange(0, n - 1) =~= values.subrange(0, n - 1));
        lemma_absorbed_all_extends(inferred(values.subrange(0, n - 1)), samples_of(values[n - 1]));
        lemma_extends_trans(inferred(values.subrange(0, m)), inferred(values.subrange(0, n - 1)), inferred(vn));
    }
}

/// Whether every item is a JSON object.
fn every_object(items: &Vec<JsonValue>) -> (r: bool)
    ensures
        r == all_objects(items@),
{
    let n = items.len();
    let mut i: usize = 0;
    while i < n
        invariant
            n == items@.len(),
            i <= n,
            forall|j: int| 0 <= j < i ==> #[trigger] items@[j] is Object,
        decreases n - i,
    {
        if !items[i].is_object() {
            return false;
        }
        i = i + 1;
    }
    true
}

/// Folds each item into `shape`, in order.
fn absorb_each(shape: &mut Shape, items: &Vec<JsonValue>)
    requires
        fits(absorbed_all(old(shape)@, items@)),
    ensures
        final(shape)@ == absorbed_all(old(shape)@, items@),
{
    let ghost s0 = shape@;
    let ghost target = absorbed_all(s0, items@);
    let n = items.len();
    let mut i: usize = 0;
    assert(items@.subrange(0, 0) =~= Seq::<JsonValue>::empty());
    while i < n
        invariant
            n == items@.len(),
            i <= n,
            target == absorbed_all(s0, items@),
            fits(target),
            shape@ == absorbed_all(s0, items@.subrange(0, i as int)),
        decreases n - i,
    {
        proof {
            let cur = items@.subrange(0, i + 1);
            assert(cur.subrange(0, i as int) =~= items@.subrange(0, i as int));
            lemma_absorbed_all_prefix(s0, items@, i + 1, n as int);
            assert(items@.subrange(0, n as int) =~= items@);
            lemma_fits_down(absorbed_all(s0, cur), target);
        }
        shape.absorb(&items[i]);
        i = i + 1;
    }
    assert(items@.subrange(0, n as int) =~= items@);
}

/// Infer a shape from a sequence of sample JSON values.
///
/// If a top-level value is a non-empty array whose elements are all
/// objects, its elements are treated as individual samples (this is the
/// common "array of records" case). Otherwise the value itself is one sample.
pub fn infer_from_values(values: Vec<JsonValue>) -> (r: Shape)
    requires
        fits(inferred(values@)),
    ensures
        r@ == inferred(values@),
{
    let mut shape = Shape::default();
    let ghost target = inferred(values@);
    let n = values.len();
    let mut k: usize = 0;
    assert(values@.subrange(0, 0) =~= Seq::<JsonValue>::empty());
    while k < n
        invariant
            n == values@.len(),
            k <= n,
            target == inferred(values@),
            fits(target),
            shape@ == inferred(values@.subrange(0, k as int)),
        decreases n - k,
    {
        let ghost cur = values@.subrange(0, k + 1);
        proof {
            assert(cur.subrange(0, k as int) =~= values@.subrange(0, k as int));
            lemma_inferred_prefix(values@, k + 1, n as int);
            assert(values@.subrange(0, n as int) =~= values@);
            lemma_fits_down(inferred(cur), target);
        }
        let v = &values[k];
        let mut spread = false;
        if let JsonValue::Array(items) = v {
            if items.len() > 0 && every_object(items) {
                spread = true;
                absorb_each(&mut shape, items);
            }
        }
        if !spread {
            proof {
                let one = seq![*v];
                assert(one.subrange(0, 0) =~= Seq::<JsonValue>::empty());
                assert(samples_of(*v) == one);
                assert(absorbed_all(shape@, one) == absorbed(absorbed_all(shape@, Seq::empty()), *v));
            }
            shape.absorb(v);
        }
        k = k + 1;
    }
    assert(values@.subrange(0, n as int) =~= values@);
    shape
}

/// What [`render`] writes for `s`, in the format and mode that the options choose.
pub open spec fn rendered(s: ShapeView, format: Format, strict: bool, root_name: Seq<char>) -> Seq<char> {
    match format {
        Format::JsonSchema => emit::json_schema::schema_document(s, strict),
        Format::TypeScript => emit::typescript::ts_document(s, strict, root_name),
        Format::Zod => emit::zod::zod_document(s, strict, root_name),
    }
}

/// Render a shape in the requested format.
pub fn render(shape: &Shape, opts: &EmitOptions) -> (r: String)
    ensures
        r@ == rendered(shape@, opts.format, opts.strict, opts.root_name@),
{
    match opts.format {
        Format::JsonSchema => emit::json_schema::render(shape, opts),
        Format::TypeScript => emit::typescript::render(shape, opts),
        Format::Zod => emit::zod::render(shape, opts),
    }
}

} // verus!
