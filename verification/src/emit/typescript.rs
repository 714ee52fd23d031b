//! TypeScript interface emitter.

use vstd::prelude::*;

use crate::emit::EmitOptions;
use crate::shape::{spec_variant_count, FieldView, ObjectShape, Shape, ShapeView};
use crate::text::{
    escaped, indent_more, join, join_strings, lemma_views_push, one_level, plain_ident,
    property_name, repeat_spaces, spaces, views,
};

verus! {

// ---------------------------------------------------------------------------
// What is rendered
// ---------------------------------------------------------------------------

/// `"?"` for a field that some observation lacked, unless strict.
pub open spec fn optional_mark(count: nat, total: nat, strict: bool) -> Seq<char> {
    if !strict && count < total {
        "?"@
    } else {
        Seq::empty()
    }
}

/// The array type of elements of shape `a`, whose type reads `inner`:
/// `Array<..>` around a union, `..[]` after anything else.
pub open spec fn array_type(a: ShapeView, inner: Seq<char>) -> Seq<char> {
    if spec_variant_count(a) + (if a.nullable { 1nat } else { 0nat }) > 1 {
        "Array<"@ + inner + ">"@
    } else {
        inner + "[]"@
    }
}

/// How many kinds a shape admits, null included, each scalar kind on its own.
pub open spec fn kinds_with_null(a: ShapeView) -> int {
    (if a.nullable { 1int } else { 0 }) + (if a.scalars.boolean { 1int } else { 0 }) + (if a.scalars.integer {
        1int
    } else {
        0
    }) + (if a.scalars.float { 1int } else { 0 }) + (if a.scalars.string { 1int } else { 0 }) + (
    if a.object is Some { 1int } else { 0 }) + (if a.array is Some { 1int } else { 0 })
}

/// How many alternatives the TypeScript type of a shape lists: integers and
/// floats share `number`.
pub open spec fn ts_alternatives(a: ShapeView) -> int {
    (if a.nullable { 1int } else { 0 }) + (if a.scalars.boolean { 1int } else { 0 }) + (if a.scalars.integer
        || a.scalars.float { 1int } else { 0 }) + (if a.scalars.string { 1int } else { 0 }) + (if a.object is Some {
        1int
    } else {
        0
    }) + (if a.array is Some { 1int } else { 0 })
}

/// An array whose elements admit more than one kind (null counted) is
/// written `Array<..>`, so a union element type such as `number | null`
/// stays whole; an element of at most one kind is written `..[]`.
pub proof fn law_array_of_union_is_wrapped(a: ShapeView, inner: Seq<char>)
    ensures
        ts_alternatives(a) <= kinds_with_null(a),
        ts_alternatives(a) >= 2 ==> array_type(a, inner) == "Array<"@ + inner + ">"@,
        kinds_with_null(a) >= 2 ==> array_type(a, inner) == "Array<"@ + inner + ">"@,
        kinds_with_null(a) <= 1 ==> array_type(a, inner) == inner + "[]"@,
{
}

/// The alternatives of a TypeScript type, in the order written: `null` last
/// whenever null was seen, and a type of one kind written bare.
pub proof fn law_ts_null_is_last(s: ShapeView, strict: bool, indent: nat)
    ensures
        s.nullable && ts_alternatives(s) == 1 ==> ts_type(s, strict, indent) == "null"@,
        s.nullable && ts_alternatives(s) >= 2 ==> exists|rest: Seq<char>|
            ts_type(s, strict, indent) == rest + " | null"@,
        ts_alternatives(s) == 0 ==> ts_type(s, strict, indent) == (if strict { "never"@ } else { "unknown"@ }),
{
    let p0 = Seq::<Seq<char>>::empty();
    let p1 = if s.scalars.boolean { p0.push("boolean"@) } else { p0 };
    let p2 = if s.scalars.integer || s.scalars.float { p1.push("number"@) } else { p1 };
    let p3 = if s.scalars.string { p2.push("string"@) } else { p2 };
    let p4 = match s.object {
        Some(o) => p3.push("{\n"@ + ts_members(o.fields, o.total, strict, indent + 1) + spaces(indent) + "}"@),
        None => p3,
    };
    let p5 = match s.array {
        Some(a) => p4.push(array_type(*a, ts_type(*a, strict, indent))),
        None => p4,
    };
    let p6 = if s.nullable { p5.push("null"@) } else { p5 };
    assert(p6.len() == ts_alternatives(s));
    if s.nullable && p6.len() >= 2 {
        assert(p6.subrange(0, p6.len() - 1) =~= p5);
        assert(ts_type(s, strict, indent) == join(p5, " | "@) + " | "@ + "null"@);
        assert(join(p5, " | "@) + " | "@ + "null"@ =~= join(p5, " | "@) + " | null"@) by {
            reveal_strlit(" | ");
            reveal_strlit("null");
            reveal_strlit(" | null");
        }
    }
}

/// Integers and floats are both written `number`; a shape of one scalar
/// kind is written by that kind's name alone.
pub proof fn law_ts_scalar_names(s: ShapeView, strict: bool, indent: nat)
    ensures
        s.object is None && s.array is None && !s.nullable && !s.scalars.boolean && !s.scalars.string && (
        s.scalars.integer || s.scalars.float) ==> ts_type(s, strict, indent) == "number"@,
        s.object is None && s.array is None && !s.nullable && !s.scalars.integer && !s.scalars.float
            && !s.scalars.string && s.scalars.boolean ==> ts_type(s, strict, indent) == "boolean"@,
        s.object is None && s.array is None && !s.nullable && !s.scalars.integer && !s.scalars.float
            && !s.scalars.boolean && s.scalars.string ==> ts_type(s, strict, indent) == "string"@,
{
}

/// A field is marked optional (`?`) exactly when it was missing from some
/// observation of its object, outside strict mode.
pub proof fn law_optional_mark(count: nat, total: nat, strict: bool)
    ensures
        !strict && count < total ==> optional_mark(count, total, strict) == "?"@,
        strict || count >= total ==> optional_mark(count, total, strict) == Seq::<char>::empty(),
{
}

/// Each field is one line: indentation, name, optional mark, `: `, type, `;`.
pub proof fn law_ts_member_line(
    fs: Seq<(Seq<char>, FieldView)>,
    k: Seq<char>,
    f: FieldView,
    total: nat,
    strict: bool,
    indent: nat,
)
    ensures
        ts_members(fs.push((k, f)), total, strict, indent) == ts_members(fs, total, strict, indent) + spaces(indent)
            + property_name(k) + (if !strict && f.count < total { "?"@ } else { Seq::<char>::empty() }) + ": "@
            + ts_type(f.shape, strict, indent) + ";\n"@,
{
    let g = fs.push((k, f));
    assert(g.subrange(0, g.len() - 1) =~= fs);
}

/// The root is declared as an interface exactly when it is an object and
/// nothing else (not null either); otherwise as a type alias.
pub proof fn law_ts_document(s: ShapeView, strict: bool, name: Seq<char>)
    ensures
        s.object is Some && kinds_with_null(s) == 1 ==> ts_document(s, strict, name) == "export interface "@ + name
            + " {\n"@ + ts_members(s.object->0.fields, s.object->0.total, strict, 1) + "}\n"@,
        !(s.object is Some && kinds_with_null(s) == 1) ==> ts_document(s, strict, name) == "export type "@ + name
            + " = "@ + ts_type(s, strict, 0) + ";\n"@,
{
}

/// The TypeScript type of shape `s`, with nested members at `indent + 1` levels.
pub open spec fn ts_type(s: ShapeView, strict: bool, indent: nat) -> Seq<char>
    decreases s,
{
    let p0 = Seq::<Seq<char>>::empty();
    let p1 = if s.scalars.boolean { p0.push("boolean"@) } else { p0 };
    let p2 = if s.scalars.integer || s.scalars.float { p1.push("number"@) } else { p1 };
    let p3 = if s.scalars.string { p2.push("string"@) } else { p2 };
    let p4 = match s.object {
        Some(o) => p3.push("{\n"@ + ts_members(o.fields, o.total, strict, indent + 1) + spaces(indent) + "}"@),
        None => p3,
    };
    let p5 = match s.array {
        Some(a) => p4.push(array_type(*a, ts_type(*a, strict, indent))),
        None => p4,
    };
    let p6 = if s.nullable { p5.push("null"@) } else { p5 };
    if p6.len() == 0 {
        if strict {
            "never"@
        } else {
            "unknown"@
        }
    } else if p6.len() == 1 {
        p6[0]
    } else {
        join(p6, " | "@)
    }
}

/// One line per field: name, optional mark, type.
pub open spec fn ts_members(fs: Seq<(Seq<char>, FieldView)>, total: nat, strict: bool, indent: nat) -> Seq<char>
    decreases fs,
{
    if fs.len() == 0 {
        Seq::empty()
    } else {
        let last = fs[fs.len() - 1];
        ts_members(fs.subrange(0, fs.len() - 1), total, strict, indent) + spaces(indent) + property_name(last.0)
            + optional_mark(last.1.count, total, strict) + ": "@ + ts_type(last.1.shape, strict, indent) + ";\n"@
    }
}

/// The declaration of the root type `name`: an interface for a plain
/// object shape, a type alias for anything else.
pub open spec fn ts_document(s: ShapeView, strict: bool, name: Seq<char>) -> Seq<char> {
    if s.object is Some && spec_variant_count(s) == 1 && !s.nullable {
        "export interface "@ + name + " {\n"@ + ts_members(s.object->0.fields, s.object->0.total, strict, 1)
            + "}\n"@
    } else {
        "export type "@ + name + " = "@ + ts_type(s, strict, 0) + ";\n"@
    }
}

// ---------------------------------------------------------------------------
// Rendering
// ---------------------------------------------------------------------------

/// Render `shape` as a TypeScript declaration of the type `opts.root_name`.
pub fn render(shape: &Shape, opts: &EmitOptions) -> (r: String)
    ensures
        r@ == ts_document(shape@, opts.strict, opts.root_name@),
{
    // Only emit an `interface` for the root if it's an object; otherwise
    // emit a type alias.
    if let Some(obj) = &shape.object {
        if shape.variant_count() == 1 && !shape.nullable {
            let mut out = String::from_str("export interface ");
            out.append(opts.root_name.as_str());
            out.append(" {\n");
            let pad = one_level();
            render_object_body_in(obj, opts, &pad, Ghost(1nat), &mut out);
            out.append("}\n");
            return out;
        }
    }
    let empty = String::new();
    assert(empty@ == spaces(0));
    let t = render_type_in(shape, opts, &empty, Ghost(0nat));
    let mut out = String::from_str("export type ");
    out.append(opts.root_name.as_str());
    out.append(" = ");
    out.append(t.as_str());
    out.append(";\n");
    out
}

/// Appends one line per field of `obj`, at `indent` levels.
pub fn render_object_body(obj: &ObjectShape, opts: &EmitOptions, indent: usize, out: &mut String)
    ensures
        final(out)@ == old(out)@ + ts_members(obj@.fields, obj@.total, opts.strict, indent as nat),
{
    let pad = repeat_spaces(indent);
    render_object_body_in(obj, opts, &pad, Ghost(indent as nat), out);
}

/// The TypeScript type of `shape`; nested object members at `indent + 1` levels.
pub fn render_type(shape: &Shape, opts: &EmitOptions, indent: usize) -> (r: String)
    ensures
        r@ == ts_type(shape@, opts.strict, indent as nat),
{
    let pad = repeat_spaces(indent);
    render_type_in(shape, opts, &pad, Ghost(indent as nat))
}

/// Appends one line per field of `obj`, at the indentation `pad`.
fn render_object_body_in(
    obj: &ObjectShape,
    opts: &EmitOptions,
    pad: &String,
    Ghost(indent): Ghost<nat>,
    out: &mut String,
)
    requires
        pad@ == spaces(indent),
    ensures
        final(out)@ == old(out)@ + ts_members(obj@.fields, obj@.total, opts.strict, indent),
    decreases obj,
{
    let ghost o = obj@;
    let ghost start = out@;
    let n = obj.fields.len();
    let mut i: usize = 0;
    assert(ts_members(o.fields.subrange(0, 0), o.total, opts.strict, indent) =~= Seq::<char>::empty());
    assert(start + Seq::<char>::empty() =~= start);
    while i < n
        invariant
            n == obj.fields@.len(),
            o == obj@,
            i <= n,
            pad@ == spaces(indent),
            out@ == start + ts_members(o.fields.subrange(0, i as int), o.total, opts.strict, indent),
        decreases n - i,
    {
        proof {
            vstd::std_specs::vec::axiom_vec_index_decreases(obj.fields, i as int);
        }
        let name = &obj.fields[i].0;
        let field = &obj.fields[i].1;
        assert(o.fields[i as int] == (name@, field@));
        let ghost cur = o.fields.subrange(0, i + 1);
        assert(cur.subrange(0, i as int) =~= o.fields.subrange(0, i as int));
        let optional = !opts.strict && field.count < obj.total;
        let ident = ts_ident(name.as_str());
        let ty = render_type_in(&field.shape, opts, pad, Ghost(indent));
        out.append(pad.as_str());
        out.append(ident.as_str());
        if optional {
            out.append("?");
        }
        out.append(": ");
        out.append(ty.as_str());
        out.append(";\n");
        assert(out@ =~= start + ts_members(cur, o.total, opts.strict, indent));
        i = i + 1;
    }
    assert(o.fields.subrange(0, n as int) =~= o.fields);
}

fn render_type_in(shape: &Shape, opts: &EmitOptions, pad: &String, Ghost(indent): Ghost<nat>) -> (r: String)
    requires
        pad@ == spaces(indent),
    ensures
        r@ == ts_type(shape@, opts.strict, indent),
    decreases shape,
{
    let mut parts: Vec<String> = Vec::new();
    assert(views(parts@) =~= Seq::<Seq<char>>::empty());
    if shape.scalars.boolean {
        let p = String::from_str("boolean");
        proof { lemma_views_push(parts@, p); }
        parts.push(p);
    }
    if shape.scalars.integer || shape.scalars.float {
        let p = String::from_str("number");
        proof { lemma_views_push(parts@, p); }
        parts.push(p);
    }
    if shape.scalars.string {
        let p = String::from_str("string");
        proof { lemma_views_push(parts@, p); }
        parts.push(p);
    }
    if let Some(obj) = &shape.object {
        let ghost o = obj@;
        let inner_pad = indent_more(pad);
        assert(inner_pad@ == spaces(indent + 1));
        let mut body = String::from_str("{\n");
        let ghost start = body@;
        let n = obj.fields.len();
        let mut i: usize = 0;
        assert(ts_members(o.fields.subrange(0, 0), o.total, opts.strict, indent + 1) =~= Seq::<char>::empty());
        assert(start + Seq::<char>::empty() =~= start);
        while i < n
            invariant
                n == obj.fields@.len(),
                o == obj@,
                *obj == shape.object->0,
                shape.object is Some,
                i <= n,
                inner_pad@ == spaces(indent + 1),
                start == "{\n"@,
                body@ == start + ts_members(o.fields.subrange(0, i as int), o.total, opts.strict, indent + 1),
            decreases n - i,
        {
            proof {
                vstd::std_specs::vec::axiom_vec_index_decreases(obj.fields, i as int);
            }
            let name = &obj.fields[i].0;
            let field = &obj.fields[i].1;
            assert(o.fields[i as int] == (name@, field@));
            let ghost cur = o.fields.subrange(0, i + 1);
            assert(cur.subrange(0, i as int) =~= o.fields.subrange(0, i as int));
            let optional = !opts.strict && field.count < obj.total;
            let ident = ts_ident(name.as_str());
            let ty = render_type_in(&field.shape, opts, &inner_pad, Ghost(indent + 1));
            body.append(inner_pad.as_str());
            body.append(ident.as_str());
            if optional {
                body.append("?");
            }
            body.append(": ");
            body.append(ty.as_str());
            body.append(";\n");
            assert(body@ =~= start + ts_members(cur, o.total, opts.strict, indent + 1));
            i = i + 1;
        }
        assert(o.fields.subrange(0, n as int) =~= o.fields);
        body.append(pad.as_str());
        body.append("}");
        proof { lemma_views_push(parts@, body); }
        parts.push(body);
    }
    if let Some(arr) = &shape.array {
        let inner = render_type_in(&**arr, opts, pad, Ghost(indent));
        let wrapped = if arr.variant_count() + (if arr.nullable { 1 } else { 0 }) > 1 {
            let mut w = String::from_str("Array<");
            w.append(inner.as_str());
            w.append(">");
            w
        } else {
            let mut w = inner;
            w.append("[]");
            w
        };
        proof { lemma_views_push(parts@, wrapped); }
        parts.push(wrapped);
    }
    if shape.nullable {
        let p = String::from_str("null");
        proof { lemma_views_push(parts@, p); }
        parts.push(p);
    }
    if parts.len() == 0 {
        if opts.strict {
            String::from_str("never")
        } else {
            String::from_str("unknown")
        }
    } else if parts.len() == 1 {
        parts.remove(0)
    } else {
        join_strings(&parts, " | ")
    }
}

/// A property name: bare when it is a plain identifier, else quoted with
/// its inner quotes escaped.
pub fn ts_ident(name: &str) -> (r: String)
    ensures
        r@ == property_name(name@),
{
    if plain_ident(name) {
        String::from_str(name)
    } else {
        let mut r = String::from_str("\"");
        let e = escaped(name);
        r.append(e.as_str());
        r.append("\"");
        r
    }
}

} // verus!
