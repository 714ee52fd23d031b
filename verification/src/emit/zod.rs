//! Zod schema emitter.

use vstd::prelude::*;

use crate::emit::EmitOptions;
use crate::shape::{FieldView, ScalarSet, Shape, ShapeView};
use crate::text::{
    escaped, indent_more, join, join_strings, lemma_views_push, plain_ident, property_name, repeat_spaces,
    spaces, views,
};

verus! {

// ---------------------------------------------------------------------------
// What is rendered
// ---------------------------------------------------------------------------

/// The Zod expression of shape `s`: its base, then `.nullable()` when null was seen.
pub open spec fn zod_expr(s: ShapeView, strict: bool, indent: nat) -> Seq<char>
    decreases s, 1nat,
{
    zod_base(s, strict, indent) + (if s.nullable {
        ".nullable()"@
    } else {
        Seq::empty()
    })
}

/// The Zod expression of shape `s`, null aside.
pub open spec fn zod_base(s: ShapeView, strict: bool, indent: nat) -> Seq<char>
    decreases s, 0nat,
{
    let p0 = Seq::<Seq<char>>::empty();
    let p1 = if s.scalars.boolean { p0.push("z.boolean()"@) } else { p0 };
    let p2 = if s.scalars.integer && !s.scalars.float {
        p1.push("z.number().int()"@)
    } else if s.scalars.float || s.scalars.integer {
        p1.push("z.number()"@)
    } else {
        p1
    };
    let p3 = if s.scalars.string { p2.push("z.string()"@) } else { p2 };
    let p4 = match s.object {
        Some(o) => p3.push(
            "z.object({\n"@ + zod_members(o.fields, o.total, strict, indent + 1) + spaces(indent) + "})"@ + (
            if strict {
                ".strict()"@
            } else {
                Seq::empty()
            }),
        ),
        None => p3,
    };
    let p5 = match s.array {
        Some(a) => p4.push("z.array("@ + zod_expr(*a, strict, indent) + ")"@),
        None => p4,
    };
    if p5.len() == 0 {
        if strict {
            "z.never()"@
        } else {
            "z.unknown()"@
        }
    } else if p5.len() == 1 {
        p5[0]
    } else {
        "z.union(["@ + join(p5, ", "@) + "])"@
    }
}

/// Numbers in Zod: `z.number().int()` only when integers and no floats were
/// seen; once a float was seen, whether integers were too makes no
/// difference, and a numbers-only shape reads `z.number()`.
pub proof fn law_zod_numbers(s: ShapeView, strict: bool, indent: nat)
    ensures
        s.scalars.float ==> zod_base(s, strict, indent) == zod_base(
            (ShapeView { scalars: ScalarSet { integer: !s.scalars.integer, ..s.scalars }, ..s }),
            strict,
            indent,
        ),
        !s.scalars.boolean && !s.scalars.string && s.object is None && s.array is None ==> zod_base(s, strict, indent)
            == (if s.scalars.float {
            "z.number()"@
        } else if s.scalars.integer {
            "z.number().int()"@
        } else if strict {
            "z.never()"@
        } else {
            "z.unknown()"@
        }),
{
}

/// An object shape alone reads `z.object({..})`, followed by `.strict()`
/// exactly in strict mode.
pub proof fn law_zod_object(s: ShapeView, strict: bool, indent: nat)
    ensures
        s.object is Some && s.array is None && !s.scalars.boolean && !s.scalars.integer && !s.scalars.float
            && !s.scalars.string ==> zod_base(s, strict, indent) == "z.object({\n"@ + zod_members(
            s.object->0.fields,
            s.object->0.total,
            strict,
            indent + 1,
        ) + spaces(indent) + "})"@ + (if strict {
            ".strict()"@
        } else {
            Seq::<char>::empty()
        }),
{
}

/// A shape that admits null reads its base expression, then `.nullable()`;
/// one that does not reads its base expression alone.
pub proof fn law_zod_nullable(s: ShapeView, strict: bool, indent: nat)
    ensures
        s.nullable ==> zod_expr(s, strict, indent) == zod_base(s, strict, indent) + ".nullable()"@,
        !s.nullable ==> zod_expr(s, strict, indent) == zod_base(s, strict, indent),
{
    assert(zod_base(s, strict, indent) + Seq::<char>::empty() =~= zod_base(s, strict, indent));
}

/// Each field is one line: indentation, key, `: `, expression, then
/// `.optional()` exactly when the field was missing from some observation
/// of its object (outside strict mode), then `,`.
pub proof fn law_zod_member_line(
    fs: Seq<(Seq<char>, FieldView)>,
    k: Seq<char>,
    f: FieldView,
    total: nat,
    strict: bool,
    indent: nat,
)
    ensures
        zod_members(fs.push((k, f)), total, strict, indent) == zod_members(fs, total, strict, indent) + spaces(indent)
            + property_name(k) + ": "@ + zod_expr(f.shape, strict, indent) + (if !strict && f.count < total {
            ".optional()"@
        } else {
            Seq::<char>::empty()
        }) + ",\n"@,
{
    let g = fs.push((k, f));
    assert(g.subrange(0, g.len() - 1) =~= fs);
}

/// One line per field: key, expression, `.optional()` for a field that some
/// observation lacked (unless strict).
pub open spec fn zod_members(fs: Seq<(Seq<char>, FieldView)>, total: nat, strict: bool, indent: nat) -> Seq<char>
    decreases fs, 2nat,
{
    if fs.len() == 0 {
        Seq::empty()
    } else {
        let last = fs[fs.len() - 1];
        zod_members(fs.subrange(0, fs.len() - 1), total, strict, indent) + spaces(indent) + property_name(
            last.0,
        ) + ": "@ + zod_expr(last.1.shape, strict, indent) + (if !strict && last.1.count < total {
            ".optional()"@
        } else {
            Seq::empty()
        }) + ",\n"@
    }
}

/// The module that declares the schema `name` and its inferred type.
pub open spec fn zod_document(s: ShapeView, strict: bool, name: Seq<char>) -> Seq<char> {
    "import { z } from \"zod\";\n\n"@ + "export const "@ + name + " = "@ + zod_expr(s, strict, 0) + ";\n"@
        + "export type "@ + name + " = z.infer<typeof "@ + name + ">;\n"@
}

// ---------------------------------------------------------------------------
// Rendering
// ---------------------------------------------------------------------------

/// Render `shape` as a Zod schema named `opts.root_name`, with its inferred type.
pub fn render(shape: &Shape, opts: &EmitOptions) -> (r: String)
    ensures
        r@ == zod_document(shape@, opts.strict, opts.root_name@),
{
    let mut out = String::from_str("import { z } from \"zod\";\n\n");
    let empty = String::new();
    assert(empty@ == spaces(0));
    let body = render_expr_in(shape, opts, &empty, Ghost(0nat));
    out.append("export const ");
    out.append(opts.root_name.as_str());
    out.append(" = ");
    out.append(body.as_str());
    out.append(";\n");
    out.append("export type ");
    out.append(opts.root_name.as_str());
    out.append(" = z.infer<typeof ");
    out.append(opts.root_name.as_str());
    out.append(">;\n");
    out
}

/// The Zod expression for `shape`, with `.nullable()` when it admits null;
/// nested object members at `indent + 1` levels.
pub fn render_expr(shape: &Shape, opts: &EmitOptions, indent: usize) -> (r: String)
    ensures
        r@ == zod_expr(shape@, opts.strict, indent as nat),
{
    let pad = repeat_spaces(indent);
    render_expr_in(shape, opts, &pad, Ghost(indent as nat))
}

/// The Zod expression for `shape` without its nullability.
pub fn base_expr(shape: &Shape, opts: &EmitOptions, indent: usize) -> (r: String)
    ensures
        r@ == zod_base(shape@, opts.strict, indent as nat),
{
    let pad = repeat_spaces(indent);
    base_expr_in(shape, opts, &pad, Ghost(indent as nat))
}

fn render_expr_in(shape: &Shape, opts: &EmitOptions, pad: &String, Ghost(indent): Ghost<nat>) -> (r: String)
    requires
        pad@ == spaces(indent),
    ensures
        r@ == zod_expr(shape@, opts.strict, indent),
    decreases shape, 1nat,
{
    let base = base_expr_in(shape, opts, pad, Ghost(indent));
    if shape.nullable {
        let mut r = base;
        r.append(".nullable()");
        r
    } else {
        assert(base@ + Seq::<char>::empty() =~= base@);
        base
    }
}

fn base_expr_in(shape: &Shape, opts: &EmitOptions, pad: &String, Ghost(indent): Ghost<nat>) -> (r: String)
    requires
        pad@ == spaces(indent),
    ensures
        r@ == zod_base(shape@, opts.strict, indent),
    decreases shape, 0nat,
{
    let mut parts: Vec<String> = Vec::new();
    assert(views(parts@) =~= Seq::<Seq<char>>::empty());
    if shape.scalars.boolean {
        let p = String::from_str("z.boolean()");
        proof { lemma_views_push(parts@, p); }
        parts.push(p);
    }
    if shape.scalars.integer && !shape.scalars.float {
        let p = String::from_str("z.number().int()");
        proof { lemma_views_push(parts@, p); }
        parts.push(p);
    } else if shape.scalars.float || shape.scalars.integer {
        let p = String::from_str("z.number()");
        proof { lemma_views_push(parts@, p); }
        parts.push(p);
    }
    if shape.scalars.string {
        let p = String::from_str("z.string()");
        proof { lemma_views_push(parts@, p); }
        parts.push(p);
    }
    if let Some(obj) = &shape.object {
        let ghost o = obj@;
        let inner_pad = indent_more(pad);
        assert(inner_pad@ == spaces(indent + 1));
        let mut body = String::from_str("z.object({\n");
        let ghost start = body@;
        let n = obj.fields.len();
        let mut i: usize = 0;
        assert(zod_members(o.fields.subrange(0, 0), o.total, opts.strict, indent + 1) =~= Seq::<char>::empty());
        assert(start + Seq::<char>::empty() =~= start);
        while i < n
            invariant
                n == obj.fields@.len(),
                o == obj@,
                *obj == shape.object->0,
                shape.object is Some,
                i <= n,
                inner_pad@ == spaces(indent + 1),
                start == "z.object({\n"@,
                body@ == start + zod_members(o.fields.subrange(0, i as int), o.total, opts.strict, indent + 1),
            decreases n - i,
        {
            proof {
                vstd::std_specs::vec::axiom_vec_index_decreases(obj.fields, i as int);
            }
            let name = &obj.fields[i].0;
            let field = &obj.fields[i].1;
            assert(o.fields[i as int] == (name@, field@));
            let ghost cur = o.fields.subrange(0, i + 1);
            assert(cur.subrange(0, i as int) =~= o.fields.subrange(0, i as int));
            let optional = !opts.strict && field.count < obj.total;
            let expr = render_expr_in(&field.shape, opts, &inner_pad, Ghost(indent + 1));
            let key = key_literal(name.as_str());
            body.append(inner_pad.as_str());
            body.append(key.as_str());
            body.append(": ");
            body.append(expr.as_str());
            if optional {
                body.append(".optional()");
            }
            body.append(",\n");
            assert(body@ =~= start + zod_members(cur, o.total, opts.strict, indent + 1));
            i = i + 1;
        }
        assert(o.fields.subrange(0, n as int) =~= o.fields);
        body.append(pad.as_str());
        body.append("})");
        if opts.strict {
            body.append(".strict()");
        }
        proof { lemma_views_push(parts@, body); }
        parts.push(body);
    }
    if let Some(arr) = &shape.array {
        let inner = render_expr_in(&**arr, opts, pad, Ghost(indent));
        let mut w = String::from_str("z.array(");
        w.append(inner.as_str());
        w.append(")");
        proof { lemma_views_push(parts@, w); }
        parts.push(w);
    }
    if parts.len() == 0 {
        return if opts.strict {
            String::from_str("z.never()")
        } else {
            String::from_str("z.unknown()")
        };
    }
    if parts.len() == 1 {
        parts.remove(0)
    } else {
        let mut r = String::from_str("z.union([");
        let joined = join_strings(&parts, ", ");
        r.append(joined.as_str());
        r.append("])");
        r
    }
}

/// An object key: bare when it is a plain identifier, else quoted with its
/// inner quotes escaped.
pub fn key_literal(name: &str) -> (r: String)
    ensures
        r@ == property_name(name@),
{
    if plain_ident(name) {
        String::from_str(name)
    } else {
        let mut r = String::from_str("\"");
        let e = escaped(name);
        r.append(e.as_str());
        r.append("\"");
        r
    }
}

} // verus!
