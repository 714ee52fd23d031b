//! JSON Schema (draft-07) emitter.

use vstd::prelude::*;

use crate::emit::EmitOptions;
use crate::shape::{spec_shape_is_empty, FieldView, ObjectShape, ObjectView, Shape, ShapeView};
use crate::text::{
    indent_more, join, join_strings, lemma_views_push, one_level, quote, quote_all, quote_each, quoted,
    repeat_spaces, spaces, views,
};

verus! {

// ---------------------------------------------------------------------------
// What is rendered
// ---------------------------------------------------------------------------

/// The JSON Schema type names a shape admits, in a fixed order.
pub open spec fn type_names(s: ShapeView) -> Seq<Seq<char>> {
    let t0 = Seq::<Seq<char>>::empty();
    let t1 = if s.scalars.boolean { t0.push("boolean"@) } else { t0 };
    let t2 = if s.scalars.integer { t1.push("integer"@) } else { t1 };
    let t3 = if s.scalars.float { t2.push("number"@) } else { t2 };
    let t4 = if s.scalars.string { t3.push("string"@) } else { t3 };
    let t5 = if s.object is Some { t4.push("object"@) } else { t4 };
    let t6 = if s.array is Some { t5.push("array"@) } else { t5 };
    if s.nullable { t6.push("null"@) } else { t6 }
}

/// The `"type"` list names every observed kind and nothing else, once
/// each: `"null"` exactly when null was seen (whatever else was), and the
/// others by their flags; floats are named `"number"`.
pub proof fn law_type_names_name_every_kind(s: ShapeView)
    ensures
        type_names(s).contains("null"@) == s.nullable,
        type_names(s).contains("boolean"@) == s.scalars.boolean,
        type_names(s).contains("integer"@) == s.scalars.integer,
        type_names(s).contains("number"@) == s.scalars.float,
        type_names(s).contains("string"@) == s.scalars.string,
        type_names(s).contains("object"@) == (s.object is Some),
        type_names(s).contains("array"@) == (s.array is Some),
        type_names(s).len() == (if s.nullable { 1int } else { 0 }) + (if s.scalars.boolean { 1int } else { 0 }) + (
        if s.scalars.integer { 1int } else { 0 }) + (if s.scalars.float { 1int } else { 0 }) + (
        if s.scalars.string { 1int } else { 0 }) + (if s.object is Some { 1int } else { 0 }) + (if s.array is Some {
            1int
        } else {
            0
        }),
        type_names(s).len() > 0 && s.nullable ==> type_names(s).last() == "null"@,
{
    reveal_strlit("null");
    reveal_strlit("boolean");
    reveal_strlit("integer");
    reveal_strlit("number");
    reveal_strlit("string");
    reveal_strlit("object");
    reveal_strlit("array");
    let t0 = Seq::<Seq<char>>::empty();
    let t1 = if s.scalars.boolean { t0.push("boolean"@) } else { t0 };
    let t2 = if s.scalars.integer { t1.push("integer"@) } else { t1 };
    let t3 = if s.scalars.float { t2.push("number"@) } else { t2 };
    let t4 = if s.scalars.string { t3.push("string"@) } else { t3 };
    let t5 = if s.object is Some { t4.push("object"@) } else { t4 };
    let t6 = if s.array is Some { t5.push("array"@) } else { t5 };
    let t7 = if s.nullable { t6.push("null"@) } else { t6 };
    assert(type_names(s) == t7);
    lemma_push_when(t0, t1, "boolean"@, s.scalars.boolean);
    lemma_push_when(t1, t2, "integer"@, s.scalars.integer);
    lemma_push_when(t2, t3, "number"@, s.scalars.float);
    lemma_push_when(t3, t4, "string"@, s.scalars.string);
    lemma_push_when(t4, t5, "object"@, s.object is Some);
    lemma_push_when(t5, t6, "array"@, s.array is Some);
    lemma_push_when(t6, t7, "null"@, s.nullable);
    assert("null"@.len() == 4 && "null"@[0] == 'n');
    assert("boolean"@.len() == 7 && "boolean"@[0] == 'b');
    assert("integer"@.len() == 7 && "integer"@[0] == 'i');
    assert("number"@.len() == 6 && "number"@[0] == 'n');
    assert("string"@.len() == 6 && "string"@[0] == 's');
    assert("object"@.len() == 6 && "object"@[0] == 'o');
    assert("array"@.len() == 5 && "array"@[0] == 'a');
    assert(!t0.contains("null"@));
    assert(!t0.contains("boolean"@));
    assert(!t0.contains("integer"@));
    assert(!t0.contains("number"@));
    assert(!t0.contains("string"@));
    assert(!t0.contains("object"@));
    assert(!t0.contains("array"@));
}

/// The `"type"` value: a single kind as one quoted name, several as a
/// bracketed list of quoted names separated by `, `.
pub proof fn law_type_value(types: Seq<Seq<char>>)
    ensures
        types.len() == 1 ==> type_value(types) == seq!['"'] + types[0] + seq!['"'],
        types.len() >= 2 ==> type_value(types) == seq!['['] + join(quote_each(types), ", "@) + seq![']'],
{
    reveal_strlit("\"");
    reveal_strlit("[");
    reveal_strlit("]");
    assert(seq!['"'] =~= "\""@);
    assert(seq!['['] =~= "["@);
    assert(seq![']'] =~= "]"@);
}

/// Appending `w` when `f` holds: what the sequence then contains, and its length.
pub proof fn lemma_push_when(t: Seq<Seq<char>>, u: Seq<Seq<char>>, w: Seq<char>, f: bool)
    requires
        u == (if f { t.push(w) } else { t }),
    ensures
        forall|x: Seq<char>| #[trigger] u.contains(x) == (t.contains(x) || (f && x == w)),
        u.len() == t.len() + (if f { 1int } else { 0 }),
{
    if f {
        assert forall|x: Seq<char>| #[trigger] u.contains(x) == (t.contains(x) || x == w) by {
            if u.contains(x) {
                let j = choose|j: int| 0 <= j < u.len() && u[j] == x;
                if j < t.len() {
                    assert(t[j] == u[j]);
                }
            }
            if t.contains(x) {
                let j = choose|j: int| 0 <= j < t.len() && t[j] == x;
                assert(u[j] == t[j]);
            }
            if x == w {
                assert(u[t.len() as int] == w);
            }
        }
    }
}

/// The value of `"type"`: one quoted name, or a list of them.
pub open spec fn type_value(types: Seq<Seq<char>>) -> Seq<char> {
    if types.len() == 1 {
        quote(types[0])
    } else {
        "["@ + join(quote_each(types), ", "@) + "]"@
    }
}

/// The `"items"` member for an array element body.
pub open spec fn items_line(pad: Seq<char>, inner: Seq<char>) -> Seq<char> {
    if inner.len() == 0 {
        pad + "\"items\": {}"@
    } else {
        pad + "\"items\": {\n"@ + inner + "\n"@ + pad + "}"@
    }
}

/// One entry of `"properties"`.
pub open spec fn property_block(inner_pad: Seq<char>, name: Seq<char>, body: Seq<char>) -> Seq<char> {
    if body.len() == 0 {
        inner_pad + "\""@ + name + "\": {}"@
    } else {
        inner_pad + "\""@ + name + "\": {\n"@ + body + "\n"@ + inner_pad + "}"@
    }
}

/// The names of the required fields, in order: all of them in strict mode,
/// else those present in every observation.
pub open spec fn required_names(fs: Seq<(Seq<char>, FieldView)>, total: nat, strict: bool) -> Seq<Seq<char>>
    decreases fs.len(),
{
    if fs.len() == 0 {
        Seq::empty()
    } else {
        let last = fs[fs.len() - 1];
        required_names(fs.subrange(0, fs.len() - 1), total, strict) + (if strict || last.1.count == total {
            seq![last.0]
        } else {
            Seq::empty()
        })
    }
}

/// In strict mode every field is required, in order.
pub proof fn law_strict_requires_every_field(fs: Seq<(Seq<char>, FieldView)>, total: nat)
    ensures
        required_names(fs, total, true) == fs.map_values(|p: (Seq<char>, FieldView)| p.0),
    decreases fs.len(),
{
    if fs.len() > 0 {
        let p = fs.subrange(0, fs.len() - 1);
        law_strict_requires_every_field(p, total);
        assert(fs.map_values(|q: (Seq<char>, FieldView)| q.0) =~= p.map_values(|q: (Seq<char>, FieldView)| q.0).push(
            fs[fs.len() - 1].0,
        ));
    }
}

/// Outside strict mode, a field is required exactly when it was present in
/// every observation of its object.
pub proof fn law_required_iff_always_present(fs: Seq<(Seq<char>, FieldView)>, total: nat, k: Seq<char>)
    ensures
        required_names(fs, total, false).contains(k) == exists|i: int|
            0 <= i < fs.len() && #[trigger] fs[i].0 == k && fs[i].1.count == total,
    decreases fs.len(),
{
    if fs.len() > 0 {
        let n = fs.len();
        let p = fs.subrange(0, n - 1);
        law_required_iff_always_present(p, total, k);
        let rp = required_names(p, total, false);
        let tail: Seq<Seq<char>> = if fs[n - 1].1.count == total { seq![fs[n - 1].0] } else { Seq::empty() };
        let r = required_names(fs, total, false);
        assert(r == rp + tail);
        if r.contains(k) {
            let j = choose|j: int| 0 <= j < r.len() && r[j] == k;
            if j < rp.len() {
                assert(rp[j] == k);
                let i = choose|i: int| 0 <= i < p.len() && #[trigger] p[i].0 == k && p[i].1.count == total;
                assert(fs[i] == p[i]);
            } else {
                assert(fs[n - 1].0 == k);
            }
        }
        if exists|i: int| 0 <= i < fs.len() && #[trigger] fs[i].0 == k && fs[i].1.count == total {
            let i = choose|i: int| 0 <= i < fs.len() && #[trigger] fs[i].0 == k && fs[i].1.count == total;
            if i < n - 1 {
                assert(p[i] == fs[i]);
                assert(rp.contains(k));
                let j = choose|j: int| 0 <= j < rp.len() && rp[j] == k;
                assert(r[j] == k);
            } else {
                assert(r[rp.len() as int] == k);
            }
        }
    }
}

/// The members describing shape `s`, at `indent` levels, one per line group.
pub open spec fn schema_body(s: ShapeView, strict: bool, indent: nat) -> Seq<char>
    decreases s,
{
    let pad = spaces(indent);
    let types = type_names(s);
    let l0: Seq<Seq<char>> = if types.len() == 0 {
        Seq::empty()
    } else {
        seq![pad + "\"type\": "@ + type_value(types)]
    };
    let l1 = match s.object {
        Some(o) => l0.push(schema_object(o, strict, indent)),
        None => l0,
    };
    let l2 = match s.array {
        Some(p) => l1.push(items_line(pad, schema_body(*p, strict, indent + 1))),
        None => l1,
    };
    join(body_lines(l2, pad, strict), ",\n"@)
}

/// The member lines of a schema: in strict mode a shape with nothing
/// observed admits no value, written `"not": {}`.
pub open spec fn body_lines(lines: Seq<Seq<char>>, pad: Seq<char>, strict: bool) -> Seq<Seq<char>> {
    if strict && lines.len() == 0 {
        seq![pad + "\"not\": {}"@]
    } else {
        lines
    }
}

/// The first of several parts begins their join.
pub proof fn lemma_join_starts(parts: Seq<Seq<char>>, sep: Seq<char>)
    requires
        parts.len() > 0,
    ensures
        parts[0].is_prefix_of(join(parts, sep)),
    decreases parts.len(),
{
    if parts.len() > 1 {
        let p = parts.subrange(0, parts.len() - 1);
        lemma_join_starts(p, sep);
        let j = join(parts, sep);
        assert(j == join(p, sep) + sep + parts[parts.len() - 1]);
        assert(p[0] == parts[0]);
        assert(parts[0] =~= j.subrange(0, parts[0].len() as int));
    }
}

/// The members of a schema are missing exactly when nothing was observed
/// (no kind, not even `null`) outside strict mode; otherwise they begin
/// with the `"type"` member when some kind was observed, and with
/// `"not": {}` when none was (strict mode).
pub proof fn law_schema_body_start(s: ShapeView, strict: bool, indent: nat)
    ensures
        (type_names(s).len() == 0) == (spec_shape_is_empty(s) && !s.nullable),
        (schema_body(s, strict, indent).len() == 0) == (!strict && type_names(s).len() == 0),
        type_names(s).len() > 0 ==> (spaces(indent) + "\"type\": "@ + type_value(type_names(s))).is_prefix_of(
            schema_body(s, strict, indent),
        ),
        strict && type_names(s).len() == 0 ==> schema_body(s, strict, indent) == spaces(indent) + "\"not\": {}"@,
{
    reveal_strlit("\"type\": ");
    reveal_strlit("\"not\": {}");
    let pad = spaces(indent);
    let types = type_names(s);
    let l0: Seq<Seq<char>> = if types.len() == 0 {
        Seq::empty()
    } else {
        seq![pad + "\"type\": "@ + type_value(types)]
    };
    let l1 = match s.object {
        Some(o) => l0.push(schema_object(o, strict, indent)),
        None => l0,
    };
    let l2 = match s.array {
        Some(p) => l1.push(items_line(pad, schema_body(*p, strict, indent + 1))),
        None => l1,
    };
    let lines = body_lines(l2, pad, strict);
    assert(schema_body(s, strict, indent) == join(lines, ",\n"@));
    if lines.len() > 0 {
        lemma_join_starts(lines, ",\n"@);
        assert(lines[0].len() > 0);
    }
}

/// The entries of `"properties"` for the fields `fs`, at `indent + 1` levels.
pub open spec fn property_lines(fs: Seq<(Seq<char>, FieldView)>, strict: bool, indent: nat) -> Seq<Seq<char>>
    decreases fs,
{
    if fs.len() == 0 {
        Seq::empty()
    } else {
        let last = fs[fs.len() - 1];
        property_lines(fs.subrange(0, fs.len() - 1), strict, indent).push(
            property_block(spaces(indent + 1), last.0, schema_body(last.1.shape, strict, indent + 2)),
        )
    }
}

/// The `"properties"`, `"required"` and `"additionalProperties"` members of an object shape.
pub open spec fn schema_object(o: ObjectView, strict: bool, indent: nat) -> Seq<char>
    decreases o,
{
    let pad = spaces(indent);
    let props = property_lines(o.fields, strict, indent);
    let reqs = required_names(o.fields, o.total, strict);
    let out = pad + "\"properties\": {\n"@ + join(props, ",\n"@) + "\n"@ + pad + "}"@;
    let out2 = if reqs.len() > 0 {
        out + ",\n"@ + pad + "\"required\": ["@ + join(quote_each(reqs), ", "@)
            + "]"@
    } else {
        out
    };
    if strict {
        out2 + ",\n"@ + pad + "\"additionalProperties\": false"@
    } else {
        out2
    }
}

/// A nested schema is written as an object around its members, `{}` when
/// it has none: for array items under `"items"`, for a field under its name.
pub proof fn law_nested_schemas(pad: Seq<char>, name: Seq<char>, body: Seq<char>)
    ensures
        body.len() == 0 ==> items_line(pad, body) == pad + "\"items\": {}"@,
        body.len() > 0 ==> items_line(pad, body) == pad + "\"items\": {\n"@ + body + "\n"@ + pad + "}"@,
        body.len() == 0 ==> property_block(pad, name, body) == pad + seq!['"'] + name + "\": {}"@,
        body.len() > 0 ==> property_block(pad, name, body) == pad + seq!['"'] + name + "\": {\n"@ + body + "\n"@
            + pad + "}"@,
{
    reveal_strlit("\"");
    assert(seq!['"'] =~= "\""@);
}

/// In strict mode an object schema ends by forbidding other properties;
/// outside it, it ends with the `"properties"` or `"required"` member
/// (closing `}` or `]`).
pub proof fn law_schema_object_strict(o: ObjectView, strict: bool, indent: nat)
    ensures
        strict ==> exists|before: Seq<char>|
            schema_object(o, strict, indent) == before + ",\n"@ + spaces(indent) + "\"additionalProperties\": false"@,
        !strict ==> schema_object(o, strict, indent).len() > 0 && (schema_object(o, strict, indent).last() == '}'
            || schema_object(o, strict, indent).last() == ']'),
{
    reveal_strlit("}");
    reveal_strlit("]");
    let pad = spaces(indent);
    let props = property_lines(o.fields, strict, indent);
    let reqs = required_names(o.fields, o.total, strict);
    let out = pad + "\"properties\": {\n"@ + join(props, ",\n"@) + "\n"@ + pad + "}"@;
    let out2 = if reqs.len() > 0 {
        out + ",\n"@ + pad + "\"required\": ["@ + join(quote_each(reqs), ", "@) + "]"@
    } else {
        out
    };
    if strict {
        assert(schema_object(o, strict, indent) == out2 + ",\n"@ + pad + "\"additionalProperties\": false"@);
    } else {
        assert(schema_object(o, strict, indent) == out2);
        if reqs.len() > 0 {
            assert(out2.last() == ']');
        } else {
            assert(out2.last() == '}');
        }
    }
}

/// The whole JSON Schema document for shape `s`.
pub open spec fn schema_document(s: ShapeView, strict: bool) -> Seq<char> {
    let body = schema_body(s, strict, 1);
    "{\n  \"$schema\": \"http://json-schema.org/draft-07/schema#\""@ + (if body.len() > 0 {
        ",\n"@ + body
    } else {
        Seq::empty()
    }) + "\n}\n"@
}

// ---------------------------------------------------------------------------
// Rendering
// ---------------------------------------------------------------------------

/// Render `shape` as a JSON Schema (draft-07) document.
pub fn render(shape: &Shape, opts: &EmitOptions) -> (r: String)
    ensures
        r@ == schema_document(shape@, opts.strict),
{
    let mut out = String::from_str("{\n  \"$schema\": \"http://json-schema.org/draft-07/schema#\"");
    let pad = one_level();
    let body = render_shape_in(shape, opts, &pad, Ghost(1nat));
    if !body.as_str().is_empty() {
        out.append(",\n");
        out.append(body.as_str());
    } else {
        assert(out@ + Seq::<char>::empty() =~= out@);
    }
    out.append("\n}\n");
    out
}

/// The members describing `shape`, at `indent` levels: empty when nothing
/// was observed (outside strict mode), else starting with its `"type"` member.
pub fn render_shape(shape: &Shape, opts: &EmitOptions, indent: usize) -> (r: String)
    ensures
        r@ == schema_body(shape@, opts.strict, indent as nat),
{
    let pad = repeat_spaces(indent);
    render_shape_in(shape, opts, &pad, Ghost(indent as nat))
}

/// The `"properties"`, `"required"` and `"additionalProperties"` members of
/// `obj`, at `indent` levels.
pub fn render_object(obj: &ObjectShape, opts: &EmitOptions, indent: usize) -> (r: String)
    ensures
        r@ == schema_object(obj@, opts.strict, indent as nat),
{
    let pad = repeat_spaces(indent);
    render_object_in(obj, opts, &pad, Ghost(indent as nat))
}

/// The type names of `shape`.
fn type_list(shape: &Shape) -> (r: Vec<String>)
    ensures
        views(r@) == type_names(shape@),
{
    let mut types: Vec<String> = Vec::new();
    assert(views(types@) =~= Seq::<Seq<char>>::empty());
    if shape.scalars.boolean {
        let t = String::from_str("boolean");
        proof { lemma_views_push(types@, t); }
        types.push(t);
    }
    if shape.scalars.integer {
        let t = String::from_str("integer");
        proof { lemma_views_push(types@, t); }
        types.push(t);
    }
    if shape.scalars.float {
        let t = String::from_str("number");
        proof { lemma_views_push(types@, t); }
        types.push(t);
    }
    if shape.scalars.string {
        let t = String::from_str("string");
        proof { lemma_views_push(types@, t); }
        types.push(t);
    }
    if shape.object.is_some() {
        let t = String::from_str("object");
        proof { lemma_views_push(types@, t); }
        types.push(t);
    }
    if shape.array.is_some() {
        let t = String::from_str("array");
        proof { lemma_views_push(types@, t); }
        types.push(t);
    }
    if shape.nullable {
        let t = String::from_str("null");
        proof { lemma_views_push(types@, t); }
        types.push(t);
    }
    types
}

fn render_shape_in(shape: &Shape, opts: &EmitOptions, pad: &String, Ghost(indent): Ghost<nat>) -> (r: String)
    requires
        pad@ == spaces(indent),
    ensures
        r@ == schema_body(shape@, opts.strict, indent),
    decreases shape,
{
    let ghost s = shape@;
    let ghost types_v = type_names(s);
    let mut lines: Vec<String> = Vec::new();
    let types = type_list(shape);
    let ghost l0: Seq<Seq<char>> = if types_v.len() == 0 {
        Seq::empty()
    } else {
        seq![pad@ + "\"type\": "@ + type_value(types_v)]
    };
    if types.len() > 0 {
        let rendered = if types.len() == 1 {
            quoted(types[0].as_str())
        } else {
            let q = quote_all(&types);
            let mut v = String::from_str("[");
            let joined = join_strings(&q, ", ");
            v.append(joined.as_str());
            v.append("]");
            v
        };
        let mut line = pad.clone();
        line.append("\"type\": ");
        line.append(rendered.as_str());
        proof { lemma_views_push(lines@, line); }
        lines.push(line);
        assert(views(lines@) =~= l0);
    } else {
        assert(views(lines@) =~= l0);
    }
    let ghost l1 = match s.object {
        Some(o) => l0.push(schema_object(o, opts.strict, indent)),
        None => l0,
    };
    if let Some(obj) = &shape.object {
        let block = render_object_in(obj, opts, pad, Ghost(indent));
        proof { lemma_views_push(lines@, block); }
        lines.push(block);
    }
    assert(views(lines@) == l1);
    let ghost l2 = match s.array {
        Some(p) => l1.push(items_line(pad@, schema_body(*p, opts.strict, indent + 1))),
        None => l1,
    };
    if let Some(arr) = &shape.array {
        let deeper = indent_more(pad);
        let inner_body = render_shape_in(&**arr, opts, &deeper, Ghost(indent + 1));
        let mut line = pad.clone();
        if inner_body.as_str().is_empty() {
            line.append("\"items\": {}");
        } else {
            line.append("\"items\": {\n");
            line.append(inner_body.as_str());
            line.append("\n");
            line.append(pad.as_str());
            line.append("}");
        }
        proof { lemma_views_push(lines@, line); }
        lines.push(line);
    }
    assert(views(lines@) == l2);
    if opts.strict && lines.len() == 0 {
        let mut line = pad.clone();
        line.append("\"not\": {}");
        proof { lemma_views_push(lines@, line); }
        lines.push(line);
    }
    assert(views(lines@) =~= body_lines(l2, pad@, opts.strict));
    join_strings(&lines, ",\n")
}

fn render_object_in(obj: &ObjectShape, opts: &EmitOptions, pad: &String, Ghost(indent): Ghost<nat>) -> (r: String)
    requires
        pad@ == spaces(indent),
    ensures
        r@ == schema_object(obj@, opts.strict, indent),
    decreases obj,
{
    let ghost o = obj@;
    let inner_pad = indent_more(pad);
    let field_pad = indent_more(&inner_pad);
    let mut prop_lines: Vec<String> = Vec::new();
    let mut required: Vec<String> = Vec::new();
    let n = obj.fields.len();
    let mut i: usize = 0;
    assert(o.fields.subrange(0, 0) =~= Seq::<(Seq<char>, FieldView)>::empty());
    assert(spaces(indent + 2) == spaces(indent + 1) + "  "@);
    assert(views(prop_lines@) =~= Seq::<Seq<char>>::empty());
    assert(required_names(o.fields.subrange(0, 0), o.total, opts.strict) =~= Seq::<Seq<char>>::empty());
    while i < n
        invariant
            n == obj.fields@.len(),
            o == obj@,
            i <= n,
            inner_pad@ == spaces(indent + 1),
            field_pad@ == spaces(indent + 2),
            views(prop_lines@) == property_lines(o.fields.subrange(0, i as int), opts.strict, indent),
            views(required@) == required_names(o.fields.subrange(0, i as int), o.total, opts.strict),
        decreases n - i,
    {
        proof {
            vstd::std_specs::vec::axiom_vec_index_decreases(obj.fields, i as int);
        }
        let name = &obj.fields[i].0;
        let field = &obj.fields[i].1;
        assert(o.fields[i as int] == (name@, field@));
        let body = render_shape_in(&field.shape, opts, &field_pad, Ghost(indent + 2));
        let mut block = inner_pad.clone();
        block.append("\"");
        block.append(name.as_str());
        if body.as_str().is_empty() {
            block.append("\": {}");
        } else {
            block.append("\": {\n");
            block.append(body.as_str());
            block.append("\n");
            block.append(inner_pad.as_str());
            block.append("}");
        }
        let ghost cur = o.fields.subrange(0, i + 1);
        assert(cur.subrange(0, i as int) =~= o.fields.subrange(0, i as int));
        proof { lemma_views_push(prop_lines@, block); }
        prop_lines.push(block);
        let is_required = opts.strict || field.count == obj.total;
        if is_required {
            let nm = name.clone();
            proof { lemma_views_push(required@, nm); }
            required.push(nm);
        }
        assert(views(required@) =~= required_names(cur, o.total, opts.strict));
        i = i + 1;
    }
    assert(o.fields.subrange(0, n as int) =~= o.fields);
    let mut out = pad.clone();
    out.append("\"properties\": {\n");
    let props_text = join_strings(&prop_lines, ",\n");
    out.append(props_text.as_str());
    out.append("\n");
    out.append(pad.as_str());
    out.append("}");
    if required.len() > 0 {
        let reqs = quote_all(&required);
        let joined = join_strings(&reqs, ", ");
        out.append(",\n");
        out.append(pad.as_str());
        out.append("\"required\": [");
        out.append(joined.as_str());
        out.append("]");
    }
    if opts.strict {
        out.append(",\n");
        out.append(pad.as_str());
        out.append("\"additionalProperties\": false");
    }
    out
}

} // verus!
