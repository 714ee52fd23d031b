//! Core shape representation and inference.
//!
//! A [`Shape`] describes the inferred structure of a set of JSON samples.
//! Its mathematical model is a [`ShapeView`]: the same tree, with keys as
//! character sequences, field lists as sequences and counters as naturals.
//! The spec functions [`absorbed`] and [`merged`] say what folding one more
//! sample in, and merging two shapes, produce.

use vstd::prelude::*;

use crate::text::str_eq;

use crate::json::{key_among, key_seen, lemma_key_among_prefix, JsonValue};
use crate::lemmas::{
    extends, fields_extend, lemma_absorbed_all_prefix, lemma_absorbed_members_prefix,
    lemma_first_key_unique, lemma_fits_down, lemma_merged_fields_prefix,
};

verus! {

/// A Shape describes the inferred structure of a set of JSON samples.
///
/// A shape is a union: it may allow multiple scalar types, an object form,
/// an array form, and/or null. Merging two shapes produces a shape that
/// accepts everything either side accepted (see [`crate::laws`]).
#[derive(Debug, PartialEq, Eq)]
pub struct Shape {
    /// Whether `null` has been observed.
    pub nullable: bool,
    /// Scalar variants observed.
    pub scalars: ScalarSet,
    /// Object variant, if any object sample was observed.
    pub object: Option<ObjectShape>,
    /// Array element shape, if any array sample was observed.
    pub array: Option<Box<Shape>>,
}

/// The scalar kinds observed.
#[derive(Debug, Clone, Copy, PartialEq, Eq, Structural)]
pub struct ScalarSet {
    pub boolean: bool,
    pub integer: bool,
    pub float: bool,
    pub string: bool,
}

/// Object shape — field set with presence counts.
#[derive(Debug, PartialEq, Eq)]
pub struct ObjectShape {
    /// Total number of object observations that contributed to this shape.
    pub total: u64,
    /// Fields in insertion order (first observation wins).
    pub fields: Vec<(String, Field)>,
}

/// One field of an object shape.
#[derive(Debug, PartialEq, Eq)]
pub struct Field {
    pub shape: Shape,
    /// How many object observations contained this field.
    pub count: u64,
}

/// The model of a [`Shape`].
pub ghost struct ShapeView {
    pub nullable: bool,
    pub scalars: ScalarSet,
    pub object: Option<ObjectView>,
    pub array: Option<Box<ShapeView>>,
}

/// The model of an [`ObjectShape`]: fields in order, keyed by their characters.
pub ghost struct ObjectView {
    pub total: nat,
    pub fields: Seq<(Seq<char>, FieldView)>,
}

/// The model of a [`Field`].
pub ghost struct FieldView {
    pub shape: ShapeView,
    pub count: nat,
}

// ---------------------------------------------------------------------------
// Views
// ---------------------------------------------------------------------------

pub open spec fn shape_view(s: Shape) -> ShapeView
    decreases s,
{
    ShapeView {
        nullable: s.nullable,
        scalars: s.scalars,
        object: match s.object {
            Some(o) => Some(object_view(o)),
            None => None,
        },
        array: match s.array {
            Some(b) => Some(Box::new(shape_view(*b))),
            None => None,
        },
    }
}

pub open spec fn object_view(o: ObjectShape) -> ObjectView
    decreases o,
{
    ObjectView { total: o.total as nat, fields: fields_view(o.fields@) }
}

pub open spec fn fields_view(fs: Seq<(String, Field)>) -> Seq<(Seq<char>, FieldView)>
    decreases fs,
{
    Seq::new(
        fs.len(),
        |i: int|
            if 0 <= i < fs.len() {
                (fs[i].0@, FieldView { shape: shape_view(fs[i].1.shape), count: fs[i].1.count as nat })
            } else {
                (Seq::empty(), FieldView { shape: empty_view(), count: 0 })
            },
    )
}

impl View for Shape {
    type V = ShapeView;

    open spec fn view(&self) -> ShapeView {
        shape_view(*self)
    }
}

impl View for ObjectShape {
    type V = ObjectView;

    open spec fn view(&self) -> ObjectView {
        object_view(*self)
    }
}

impl View for Field {
    type V = FieldView;

    open spec fn view(&self) -> FieldView {
        FieldView { shape: shape_view(self.shape), count: self.count as nat }
    }
}

// ---------------------------------------------------------------------------
// The model's vocabulary
// ---------------------------------------------------------------------------

/// No scalar kind.
pub open spec fn no_scalars() -> ScalarSet {
    ScalarSet { boolean: false, integer: false, float: false, string: false }
}

/// The shape of no samples at all.
pub open spec fn empty_view() -> ShapeView {
    ShapeView { nullable: false, scalars: no_scalars(), object: None, array: None }
}

/// The object shape of no samples.
pub open spec fn empty_object() -> ObjectView {
    ObjectView { total: 0, fields: Seq::empty() }
}

/// Kind-wise union of two scalar sets.
pub open spec fn scalars_union(a: ScalarSet, b: ScalarSet) -> ScalarSet {
    ScalarSet {
        boolean: a.boolean || b.boolean,
        integer: a.integer || b.integer,
        float: a.float || b.float,
        string: a.string || b.string,
    }
}

/// Whether some field is named `k`.
pub open spec fn has_key(fs: Seq<(Seq<char>, FieldView)>, k: Seq<char>) -> bool {
    exists|i: int| #![trigger fs[i]] 0 <= i < fs.len() && fs[i].0 == k
}

/// `i` is the first position of a field named `k`.
pub open spec fn is_first_key(fs: Seq<(Seq<char>, FieldView)>, k: Seq<char>, i: int) -> bool {
    &&& 0 <= i < fs.len()
    &&& fs[i].0 == k
    &&& forall|j: int| #![trigger fs[j]] 0 <= j < i ==> fs[j].0 != k
}

/// The position of the first field named `k` (meaningful when [`has_key`]).
pub open spec fn key_pos(fs: Seq<(Seq<char>, FieldView)>, k: Seq<char>) -> int {
    choose|i: int| is_first_key(fs, k, i)
}

/// No two fields share a name.
pub open spec fn keys_distinct(fs: Seq<(Seq<char>, FieldView)>) -> bool {
    forall|i: int, j: int| 0 <= i < fs.len() && 0 <= j < fs.len() && i != j ==> fs[i].0 != fs[j].0
}

// ---------------------------------------------------------------------------
// Folding a sample in
// ---------------------------------------------------------------------------

/// The array element shape to extend: the existing one, or the empty shape.
pub open spec fn array_or_empty(s: ShapeView) -> ShapeView {
    match s.array {
        Some(b) => *b,
        None => empty_view(),
    }
}

/// The object shape to extend by one more observation: its total is one higher.
pub open spec fn object_opened(s: ShapeView) -> ObjectView {
    match s.object {
        Some(o) => ObjectView { total: o.total + 1, fields: o.fields },
        None => ObjectView { total: 1, fields: Seq::empty() },
    }
}

/// `s` after one more observation, `v`.
pub open spec fn absorbed(s: ShapeView, v: JsonValue) -> ShapeView
    decreases v,
{
    match v {
        JsonValue::Null => ShapeView { nullable: true, ..s },
        JsonValue::Bool(_) => ShapeView { scalars: ScalarSet { boolean: true, ..s.scalars }, ..s },
        JsonValue::Integer(_) => ShapeView { scalars: ScalarSet { integer: true, ..s.scalars }, ..s },
        JsonValue::Float => ShapeView { scalars: ScalarSet { float: true, ..s.scalars }, ..s },
        JsonValue::String(_) => ShapeView { scalars: ScalarSet { string: true, ..s.scalars }, ..s },
        JsonValue::Array(items) => ShapeView {
            array: Some(Box::new(absorbed_all(array_or_empty(s), items@))),
            ..s
        },
        JsonValue::Object(entries) => ShapeView {
            object: Some(absorbed_members(object_opened(s), entries@)),
            ..s
        },
    }
}

/// `s` after observing each of `items`, in order.
pub open spec fn absorbed_all(s: ShapeView, items: Seq<JsonValue>) -> ShapeView
    decreases items,
{
    if items.len() == 0 {
        s
    } else {
        absorbed(absorbed_all(s, items.subrange(0, items.len() - 1)), items[items.len() - 1])
    }
}

/// The fields of `o` after observing the members of one object, in order.
/// A key that repeats within the object counts once, by its first member.
pub open spec fn absorbed_members(o: ObjectView, entries: Seq<(String, JsonValue)>) -> ObjectView
    decreases entries,
{
    if entries.len() == 0 {
        o
    } else {
        let prev = entries.subrange(0, entries.len() - 1);
        let acc = absorbed_members(o, prev);
        let k = entries[entries.len() - 1].0@;
        let v = entries[entries.len() - 1].1;
        if key_among(prev, prev.len() as int, k) {
            acc
        } else if has_key(acc.fields, k) {
            let i = key_pos(acc.fields, k);
            ObjectView {
                total: acc.total,
                fields: acc.fields.update(
                    i,
                    (
                        acc.fields[i].0,
                        FieldView {
                            shape: absorbed(acc.fields[i].1.shape, v),
                            count: acc.fields[i].1.count + 1,
                        },
                    ),
                ),
            }
        } else {
            ObjectView {
                total: acc.total,
                fields: acc.fields.push((k, FieldView { shape: absorbed(empty_view(), v), count: 1 })),
            }
        }
    }
}

// ---------------------------------------------------------------------------
// Merging
// ---------------------------------------------------------------------------

/// The union of two shapes: every observation of `a`, then every one of `b`.
pub open spec fn merged(a: ShapeView, b: ShapeView) -> ShapeView
    decreases b,
{
    ShapeView {
        nullable: a.nullable || b.nullable,
        scalars: scalars_union(a.scalars, b.scalars),
        object: match b.object {
            Some(y) => match a.object {
                Some(x) => Some(ObjectView { total: x.total + y.total, fields: merged_fields(x.fields, y.fields) }),
                None => Some(y),
            },
            None => a.object,
        },
        array: match b.array {
            Some(q) => match a.array {
                Some(p) => Some(Box::new(merged(*p, *q))),
                None => Some(q),
            },
            None => a.array,
        },
    }
}

/// The fields `xs` after merging in the fields `ys`, in order: a field whose
/// name is already there has its counts added and its shapes merged; any
/// other is appended.
pub open spec fn merged_fields(
    xs: Seq<(Seq<char>, FieldView)>,
    ys: Seq<(Seq<char>, FieldView)>,
) -> Seq<(Seq<char>, FieldView)>
    decreases ys,
{
    if ys.len() == 0 {
        xs
    } else {
        let acc = merged_fields(xs, ys.subrange(0, ys.len() - 1));
        let k = ys[ys.len() - 1].0;
        let f = ys[ys.len() - 1].1;
        if has_key(acc, k) {
            let i = key_pos(acc, k);
            acc.update(
                i,
                (acc[i].0, FieldView { shape: merged(acc[i].1.shape, f.shape), count: acc[i].1.count + f.count }),
            )
        } else {
            acc.push((k, f))
        }
    }
}

// ---------------------------------------------------------------------------
// Well-formedness and counter bounds
// ---------------------------------------------------------------------------

/// The invariant that inference keeps: no object repeats a field name, and
/// each field was seen at least once and at most as often as its object.
pub open spec fn wf(s: ShapeView) -> bool
    decreases s,
{
    &&& (s.object matches Some(o) ==> {
        &&& keys_distinct(o.fields)
        &&& forall|i: int|
            #![trigger o.fields[i]]
            0 <= i < o.fields.len() ==> {
                &&& 1 <= o.fields[i].1.count <= o.total
                &&& wf(o.fields[i].1.shape)
            }
    })
    &&& (s.array matches Some(p) ==> wf(*p))
}

/// Every object of the shape was observed at least once.
pub open spec fn observed(s: ShapeView) -> bool
    decreases s,
{
    &&& (s.object matches Some(o) ==> {
        &&& 1 <= o.total
        &&& forall|i: int| #![trigger o.fields[i]] 0 <= i < o.fields.len() ==> observed(o.fields[i].1.shape)
    })
    &&& (s.array matches Some(p) ==> observed(*p))
}

/// Every counter of the object shape fits in a `u64`.
pub open spec fn object_fits(o: ObjectView) -> bool {
    &&& o.total <= u64::MAX
    &&& forall|i: int|
        #![trigger o.fields[i]]
        0 <= i < o.fields.len() ==> {
            &&& o.fields[i].1.count <= u64::MAX
            &&& fits(o.fields[i].1.shape)
        }
}

/// Every counter of the shape fits in a `u64`.
pub open spec fn fits(s: ShapeView) -> bool
    decreases s,
{
    &&& (s.object matches Some(o) ==> {
        &&& o.total <= u64::MAX
        &&& forall|i: int|
            #![trigger o.fields[i]]
            0 <= i < o.fields.len() ==> {
                &&& o.fields[i].1.count <= u64::MAX
                &&& fits(o.fields[i].1.shape)
            }
    })
    &&& (s.array matches Some(p) ==> fits(*p))
}

/// How many of the top-level kinds (four scalars, object, array) the shape admits.
pub open spec fn spec_variant_count(s: ShapeView) -> nat {
    (if s.scalars.boolean { 1nat } else { 0nat }) + (if s.scalars.integer { 1nat } else { 0nat }) + (
    if s.scalars.float { 1nat } else { 0nat }) + (if s.scalars.string { 1nat } else { 0nat }) + (
    if s.object is Some { 1nat } else { 0nat }) + (if s.array is Some { 1nat } else { 0nat })
}

/// No scalar kind is set.
pub open spec fn scalars_empty(s: ScalarSet) -> bool {
    !(s.boolean || s.integer || s.float || s.string)
}

/// A shape with no positive observation (only `null`, or nothing).
pub open spec fn spec_shape_is_empty(s: ShapeView) -> bool {
    scalars_empty(s.scalars) && s.object is None && s.array is None
}

// ---------------------------------------------------------------------------
// Facts about views
// ---------------------------------------------------------------------------

pub proof fn lemma_fields_view_update(fs: Seq<(String, Field)>, i: int, e: (String, Field))
    requires
        0 <= i < fs.len(),
    ensures
        fields_view(fs.update(i, e)) == fields_view(fs).update(i, (e.0@, e.1@)),
{
    assert(fields_view(fs.update(i, e)) =~= fields_view(fs).update(i, (e.0@, e.1@)));
}

pub proof fn lemma_fields_view_push(fs: Seq<(String, Field)>, e: (String, Field))
    ensures
        fields_view(fs.push(e)) == fields_view(fs).push((e.0@, e.1@)),
{
    assert(fields_view(fs.push(e)) =~= fields_view(fs).push((e.0@, e.1@)));
}

/// Counters that fit in `b` fit in an object shape that `b` extends.
pub proof fn lemma_object_fits_down(a: ObjectView, b: ObjectView)
    requires
        a.total <= b.total,
        fields_extend(a.fields, b.fields),
        object_fits(b),
    ensures
        object_fits(a),
{
    assert forall|i: int| #![trigger a.fields[i]] 0 <= i < a.fields.len() implies {
        &&& a.fields[i].1.count <= u64::MAX
        &&& fits(a.fields[i].1.shape)
    } by {
        assert(b.fields[i].0 == a.fields[i].0);
        assert(fits(b.fields[i].1.shape));
        lemma_fits_down(a.fields[i].1.shape, b.fields[i].1.shape);
    }
}

// ---------------------------------------------------------------------------
// Executable code
// ---------------------------------------------------------------------------

impl Default for ScalarSet {
    fn default() -> (r: ScalarSet)
        ensures
            r == no_scalars(),
    {
        ScalarSet { boolean: false, integer: false, float: false, string: false }
    }
}

impl ScalarSet {
    /// Whether no scalar kind is set.
    pub fn is_empty(&self) -> (r: bool)
        ensures
            r == scalars_empty(*self),
    {
        !(self.boolean || self.integer || self.float || self.string)
    }

    /// Kind-wise union with `other`.
    pub fn merge(&mut self, other: &ScalarSet)
        ensures
            *final(self) == scalars_union(*old(self), *other),
    {
        self.boolean = self.boolean || other.boolean;
        self.integer = self.integer || other.integer;
        self.float = self.float || other.float;
        self.string = self.string || other.string;
    }
}

impl Default for ObjectShape {
    fn default() -> (r: ObjectShape)
        ensures
            r@ == empty_object(),
    {
        let r = ObjectShape { total: 0, fields: Vec::new() };
        assert(r@.fields =~= Seq::<(Seq<char>, FieldView)>::empty());
        r
    }
}

impl Default for Shape {
    fn default() -> (r: Shape)
        ensures
            r@ == empty_view(),
    {
        Shape { nullable: false, scalars: ScalarSet::default(), object: None, array: None }
    }
}

impl ObjectShape {
    /// The position of the first field named `key`.
    fn position(&self, key: &str) -> (r: Option<usize>)
        ensures
            match r {
                Some(i) => is_first_key(self@.fields, key@, i as int),
                None => !has_key(self@.fields, key@),
            },
    {
        let n = self.fields.len();
        let mut i: usize = 0;
        while i < n
            invariant
                n == self.fields@.len(),
                i <= n,
                forall|j: int| #![trigger self@.fields[j]] 0 <= j < i ==> self@.fields[j].0 != key@,
            decreases n - i,
        {
            if str_eq(self.fields[i].0.as_str(), key) {
                return Some(i);
            }
            i = i + 1;
        }
        None
    }

    /// Appends a field.
    fn insert(&mut self, key: String, field: Field)
        ensures
            final(self)@ == (ObjectView {
                total: old(self)@.total,
                fields: old(self)@.fields.push((key@, field@)),
            }),
    {
        proof {
            lemma_fields_view_push(self.fields@, (key, field));
        }
        self.fields.push((key, field));
    }

    /// The first field named `key`, if any.
    pub fn get(&self, key: &str) -> (r: Option<&Field>)
        ensures
            match r {
                Some(f) => has_key(self@.fields, key@) && f@ == self@.fields[key_pos(
                    self@.fields,
                    key@,
                )].1,
                None => !has_key(self@.fields, key@),
            },
    {
        match self.position(key) {
            Some(i) => {
                proof {
                    lemma_first_key_unique(self@.fields, key@, i as int);
                }
                Some(&self.fields[i].1)
            },
            None => None,
        }
    }

    /// A copy with the same model.
    pub fn duplicate(&self) -> (r: ObjectShape)
        ensures
            r@ == self@,
        decreases self,
    {
        let n = self.fields.len();
        let mut fields: Vec<(String, Field)> = Vec::new();
        let mut i: usize = 0;
        while i < n
            invariant
                n == self.fields@.len(),
                i <= n,
                fields@.len() == i,
                forall|j: int|
                    #![trigger fields@[j]]
                    0 <= j < i ==> fields@[j].0@ == self.fields@[j].0@ && fields@[j].1@
                        == self.fields@[j].1@,
            decreases n - i,
        {
            let f = &self.fields[i].1;
            let shape = f.shape.duplicate();
            fields.push((self.fields[i].0.clone(), Field { shape, count: f.count }));
            i = i + 1;
        }
        let r = ObjectShape { total: self.total, fields };
        assert(r@.fields =~= self@.fields);
        r
    }

    /// Observes the members of one object: each key counts once, by its
    /// first member.
    fn absorb_members(&mut self, entries: &Vec<(String, JsonValue)>)
        requires
            object_fits(absorbed_members(old(self)@, entries@)),
        ensures
            final(self)@ == absorbed_members(old(self)@, entries@),
        decreases entries,
    {
        let ghost o0 = self@;
        let ghost target = absorbed_members(o0, entries@);
        let n = entries.len();
        let mut i: usize = 0;
        assert(entries@.subrange(0, 0) =~= Seq::<(String, JsonValue)>::empty());
        while i < n
            invariant
                n == entries@.len(),
                i <= n,
                target == absorbed_members(o0, entries@),
                object_fits(target),
                self@ == absorbed_members(o0, entries@.subrange(0, i as int)),
            decreases n - i,
        {
            let ghost cur = entries@.subrange(0, i + 1);
            let ghost step = absorbed_members(o0, cur);
            proof {
                assert(cur.subrange(0, i as int) =~= entries@.subrange(0, i as int));
                lemma_absorbed_members_prefix(o0, entries@, i + 1, n as int);
                assert(entries@.subrange(0, n as int) =~= entries@);
                lemma_object_fits_down(step, target);
            }
            let key: &String = &entries[i].0;
            let val: &JsonValue = &entries[i].1;
            proof {
                lemma_key_among_prefix(entries@, i as int, key@);
                vstd::std_specs::vec::axiom_vec_index_decreases(*entries, i as int);
            }
            if !key_seen(entries, i, key.as_str()) {
                match self.position(key.as_str()) {
                    Some(j) => {
                        proof {
                            lemma_first_key_unique(self@.fields, key@, j as int);
                            assert(step.fields[j as int].1.count == self@.fields[j as int].1.count + 1);
                            assert(step.fields[j as int].1.shape == absorbed(self@.fields[j as int].1.shape, *val));
                        }
                        let mut entry: (String, Field) = (
                            String::new(),
                            Field { shape: Shape::default(), count: 0 },
                        );
                        self.fields.set_and_swap(j, &mut entry);
                        entry.1.count = entry.1.count + 1;
                        entry.1.shape.absorb(val);
                        proof {
                            lemma_fields_view_update(self.fields@, j as int, entry);
                        }
                        self.fields.set(j, entry);
                        assert(self@.fields =~= step.fields);
                    },
                    None => {
                        assert(step.fields[self@.fields.len() as int].1.shape == absorbed(empty_view(), *val));
                        let mut fresh = Shape::default();
                        fresh.absorb(val);
                        self.insert(key.clone(), Field { shape: fresh, count: 1 });
                        assert(self@.fields =~= step.fields);
                    },
                }
            }
            assert(self@ == step);
            i = i + 1;
        }
        assert(entries@.subrange(0, n as int) =~= entries@);
    }

    /// Merges the fields of `other` into these fields, in order.
    fn merge_fields_from(&mut self, other: &ObjectShape)
        requires
            object_fits(
                ObjectView {
                    total: old(self)@.total + other@.total,
                    fields: merged_fields(old(self)@.fields, other@.fields),
                },
            ),
        ensures
            final(self)@ == (ObjectView {
                total: old(self)@.total + other@.total,
                fields: merged_fields(old(self)@.fields, other@.fields),
            }),
        decreases other,
    {
        let ghost xs = self@.fields;
        let ghost ys = other@.fields;
        let ghost target = ObjectView { total: self@.total + other@.total, fields: merged_fields(xs, ys) };
        self.total = self.total + other.total;
        let n = other.fields.len();
        let mut i: usize = 0;
        assert(ys.subrange(0, 0) =~= Seq::<(Seq<char>, FieldView)>::empty());
        while i < n
            invariant
                n == other.fields@.len(),
                ys == other@.fields,
                i <= n,
                target == (ObjectView { total: target.total, fields: merged_fields(xs, ys) }),
                object_fits(target),
                self@ == (ObjectView { total: target.total, fields: merged_fields(xs, ys.subrange(0, i as int)) }),
            decreases n - i,
        {
            let ghost cur = ys.subrange(0, i + 1);
            let ghost step = ObjectView { total: target.total, fields: merged_fields(xs, cur) };
            proof {
                assert(cur.subrange(0, i as int) =~= ys.subrange(0, i as int));
                lemma_merged_fields_prefix(xs, ys, i + 1, n as int);
                assert(ys.subrange(0, n as int) =~= ys);
                lemma_object_fits_down(step, target);
            }
            let key: &String = &other.fields[i].0;
            let bf: &Field = &other.fields[i].1;
            proof {
                vstd::std_specs::vec::axiom_vec_index_decreases(other.fields, i as int);
                assert(cur[i as int] == (key@, bf@));
            }
            match self.position(key.as_str()) {
                Some(j) => {
                    proof {
                        lemma_first_key_unique(self@.fields, key@, j as int);
                        assert(step.fields[j as int].1.count == self@.fields[j as int].1.count + bf.count);
                        assert(step.fields[j as int].1.shape == merged(self@.fields[j as int].1.shape, bf@.shape));
                    }
                    let mut entry: (String, Field) = (
                        String::new(),
                        Field { shape: Shape::default(), count: 0 },
                    );
                    self.fields.set_and_swap(j, &mut entry);
                    entry.1.count = entry.1.count + bf.count;
                    entry.1.shape.merge(&bf.shape);
                    proof {
                        lemma_fields_view_update(self.fields@, j as int, entry);
                    }
                    self.fields.set(j, entry);
                    assert(self@.fields =~= step.fields);
                },
                None => {
                    let copy = Field { shape: bf.shape.duplicate(), count: bf.count };
                    self.insert(key.clone(), copy);
                    assert(self@.fields =~= step.fields);
                },
            }
            assert(self@ == step);
            i = i + 1;
        }
        assert(ys.subrange(0, n as int) =~= ys);
    }
}

impl Shape {
    /// A copy with the same model.
    pub fn duplicate(&self) -> (r: Shape)
        ensures
            r@ == self@,
        decreases self,
    {
        let object = match &self.object {
            Some(o) => Some(o.duplicate()),
            None => None,
        };
        let array = match &self.array {
            Some(b) => Some(Box::new((**b).duplicate())),
            None => None,
        };
        Shape { nullable: self.nullable, scalars: self.scalars, object, array }
    }

    /// Build a shape from a single JSON value.
    pub fn from_value(v: &JsonValue) -> (r: Shape)
        requires
            fits(absorbed(empty_view(), *v)),
        ensures
            r@ == absorbed(empty_view(), *v),
    {
        let mut s = Shape::default();
        s.absorb(v);
        s
    }

    /// Fold a JSON value into this shape as one additional observation.
    pub fn absorb(&mut self, v: &JsonValue)
        requires
            fits(absorbed(old(self)@, *v)),
        ensures
            final(self)@ == absorbed(old(self)@, *v),
        decreases v,
    {
        match v {
            JsonValue::Null => {
                self.nullable = true;
            },
            JsonValue::Bool(_) => {
                self.scalars.boolean = true;
            },
            JsonValue::Integer(_) => {
                self.scalars.integer = true;
            },
            JsonValue::Float => {
                self.scalars.float = true;
            },
            JsonValue::String(_) => {
                self.scalars.string = true;
            },
            JsonValue::Array(items) => {
                let ghost s0 = self@;
                assert(s0.array == (match self.array {
                    Some(b) => Some(Box::new((*b)@)),
                    None => None,
                }));
                let mut inner: Shape = match self.array.take() {
                    Some(b) => *b,
                    None => Shape::default(),
                };
                let ghost inner0 = inner@;
                let ghost target = absorbed_all(inner0, items@);
                assert(inner0 == array_or_empty(s0));
                assert(fits(target));
                let n = items.len();
                let mut i: usize = 0;
                assert(items@.subrange(0, 0) =~= Seq::<JsonValue>::empty());
                while i < n
                    invariant
                        n == items@.len(),
                        i <= n,
                        *v == JsonValue::Array(*items),
                        target == absorbed_all(inner0, items@),
                        fits(target),
                        inner@ == absorbed_all(inner0, items@.subrange(0, i as int)),
                    decreases n - i,
                {
                    proof {
                        vstd::std_specs::vec::axiom_vec_index_decreases(*items, i as int);
                        assert(decreases_to!(*v => (*v)->Array_0));
                        let cur = items@.subrange(0, i + 1);
                        assert(cur.subrange(0, i as int) =~= items@.subrange(0, i as int));
                        lemma_absorbed_all_prefix(inner0, items@, i + 1, n as int);
                        assert(items@.subrange(0, n as int) =~= items@);
                        lemma_fits_down(absorbed_all(inner0, cur), target);
                    }
                    inner.absorb(&items[i]);
                    i = i + 1;
                }
                assert(items@.subrange(0, n as int) =~= items@);
                self.array = Some(Box::new(inner));
            },
            JsonValue::Object(entries) => {
                let ghost s0 = self@;
                assert(s0.object == (match self.object {
                    Some(o) => Some(o@),
                    None => None,
                }));
                let mut obj: ObjectShape = match self.object.take() {
                    Some(o) => o,
                    None => ObjectShape::default(),
                };
                let ghost opened = object_opened(s0);
                proof {
                    lemma_absorbed_members_prefix(opened, entries@, 0, entries@.len() as int);
                    assert(entries@.subrange(0, entries@.len() as int) =~= entries@);
                    assert(opened.total <= u64::MAX);
                }
                obj.total = obj.total + 1;
                assert(obj@ == opened);
                obj.absorb_members(entries);
                self.object = Some(obj);
            },
        }
    }

    /// Merge another shape into this one (lattice union).
    pub fn merge(&mut self, other: &Shape)
        requires
            fits(merged(old(self)@, other@)),
        ensures
            final(self)@ == merged(old(self)@, other@),
        decreases other,
    {
        self.nullable = self.nullable || other.nullable;
        self.scalars.merge(&other.scalars);
        match &other.object {
            Some(b) => {
                match self.object.take() {
                    Some(a) => {
                        let mut a = a;
                        a.merge_fields_from(b);
                        self.object = Some(a);
                    },
                    None => {
                        self.object = Some(b.duplicate());
                    },
                }
            },
            None => {},
        }
        match &other.array {
            Some(q) => {
                match self.array.take() {
                    Some(p) => {
                        let mut inner: Shape = *p;
                        inner.merge(&**q);
                        self.array = Some(Box::new(inner));
                    },
                    None => {
                        self.array = Some(Box::new((**q).duplicate()));
                    },
                }
            },
            None => {},
        }
    }

    /// How many distinct top-level variants this shape admits.
    /// Null is counted separately.
    pub fn variant_count(&self) -> (n: usize)
        ensures
            n == spec_variant_count(self@),
    {
        let mut n: usize = 0;
        if self.scalars.boolean {
            n = n + 1;
        }
        if self.scalars.integer {
            n = n + 1;
        }
        if self.scalars.float {
            n = n + 1;
        }
        if self.scalars.string {
            n = n + 1;
        }
        if self.object.is_some() {
            n = n + 1;
        }
        if self.array.is_some() {
            n = n + 1;
        }
        n
    }

    /// A shape with no positive observations (only `null`, or empty).
    pub fn is_empty(&self) -> (r: bool)
        ensures
            r == spec_shape_is_empty(self@),
    {
        self.scalars.is_empty() && self.object.is_none() && self.array.is_none()
    }
}

impl Clone for Shape {
    fn clone(&self) -> (r: Shape)
        ensures
            r@ == self@,
    {
        self.duplicate()
    }
}

impl Clone for ObjectShape {
    fn clone(&self) -> (r: ObjectShape)
        ensures
            r@ == self@,
    {
        self.duplicate()
    }
}

impl Clone for Field {
    fn clone(&self) -> (r: Field)
        ensures
            r@ == self@,
    {
        Field { shape: self.shape.duplicate(), count: self.count }
    }
}

} // verus!
