use degu::shape::{Field, ObjectShape, Shape};
use degu::{infer_from_values, render, EmitOptions, Format, JsonValue};

fn text(s: &str) -> JsonValue {
    JsonValue::String(s.to_string())
}

fn object(members: Vec<(&str, JsonValue)>) -> JsonValue {
    JsonValue::Object(members.into_iter().map(|(k, v)| (k.to_string(), v)).collect())
}

/// Everything a shape holds, counters included, as text.
fn describe(s: &Shape) -> String {
    let mut out = format!(
        "n{}b{}i{}f{}s{}",
        s.nullable as u8, s.scalars.boolean as u8, s.scalars.integer as u8, s.scalars.float as u8, s.scalars.string as u8
    );
    if let Some(o) = &s.object {
        out.push_str(&format!("{{t{}", o.total));
        for (k, f) in &o.fields {
            out.push_str(&format!(" {}#{}:{}", k, f.count, describe(&f.shape)));
        }
        out.push('}');
    }
    if let Some(a) = &s.array {
        out.push_str(&format!("[{}]", describe(a)));
    }
    out
}

fn samples() -> Vec<JsonValue> {
    vec![
        object(vec![("a", JsonValue::Integer(1)), ("b", JsonValue::Array(vec![text("x")]))]),
        object(vec![("b", JsonValue::Array(vec![JsonValue::Null])), ("c", JsonValue::Bool(true))]),
        JsonValue::Array(vec![object(vec![("a", JsonValue::Float)])]),
        JsonValue::Null,
    ]
}

#[test]
fn absorbing_is_merging_the_one_sample_shape() {
    let mut base = Shape::from_value(&object(vec![("a", text("s")), ("z", JsonValue::Null)]));
    base.absorb(&JsonValue::Array(vec![JsonValue::Integer(2)]));
    for v in samples() {
        let mut absorbed = base.duplicate();
        absorbed.absorb(&v);
        let mut merged = base.duplicate();
        merged.merge(&Shape::from_value(&v));
        assert_eq!(describe(&absorbed), describe(&merged));
    }
}

#[test]
fn merging_is_associative() {
    let shapes: Vec<Shape> = samples().iter().map(Shape::from_value).collect();
    let (a, b, c) = (&shapes[0], &shapes[1], &shapes[2]);
    let mut left = a.duplicate();
    left.merge(b);
    left.merge(c);
    let mut bc = b.duplicate();
    bc.merge(c);
    let mut right = a.duplicate();
    right.merge(&bc);
    assert_eq!(describe(&left), describe(&right));
    let mut ab = a.duplicate();
    ab.merge(b);
    let mut ba = b.duplicate();
    ba.merge(a);
    // Merging keeps the order of first observation, so it is not commutative.
    assert_ne!(describe(&ab), describe(&ba));
}

#[test]
fn merged_shape_accepts_both_sides() {
    let a = Shape::from_value(&object(vec![("a", JsonValue::Integer(1)), ("b", text("x"))]));
    let b = Shape::from_value(&object(vec![("a", JsonValue::Float)]));
    let mut m = a.duplicate();
    m.merge(&b);
    let o = m.object.as_ref().unwrap();
    // `a` is in both samples, so it stays required; `b` is not.
    assert_eq!(o.get("a").unwrap().count, o.total);
    assert!(o.get("b").unwrap().count < o.total);
    let a_field = &o.get("a").unwrap().shape;
    assert!(a_field.scalars.integer && a_field.scalars.float);
}

#[test]
fn inferred_shape_accepts_every_sample() {
    let shape = infer_from_values(vec![
        JsonValue::Array(vec![
            object(vec![("id", JsonValue::Integer(1)), ("tag", text("x"))]),
            object(vec![("id", JsonValue::Integer(2)), ("tag", JsonValue::Null)]),
        ]),
        object(vec![("id", JsonValue::Integer(3))]),
    ]);
    let o = shape.object.as_ref().unwrap();
    assert_eq!(o.total, 3);
    let id = o.get("id").unwrap();
    assert_eq!(id.count, 3);
    assert!(id.shape.scalars.integer);
    let tag = o.get("tag").unwrap();
    assert_eq!(tag.count, 2);
    assert!(tag.shape.scalars.string && tag.shape.nullable);
}

#[test]
fn missing_field_is_optional_and_common_field_required() {
    let shape = infer_from_values(vec![
        object(vec![("id", JsonValue::Integer(1)), ("name", text("x"))]),
        object(vec![("id", JsonValue::Integer(2))]),
    ]);
    let opts = EmitOptions { format: Format::JsonSchema, strict: false, root_name: "Root".to_string() };
    let out = render(&shape, &opts);
    assert!(out.contains("\"required\": [\"id\"]"));
    let strict = EmitOptions { strict: true, ..opts };
    let out = render(&shape, &strict);
    assert!(out.contains("\"required\": [\"id\", \"name\"]"));
}

#[test]
fn absorbing_keeps_the_shape_well_formed() {
    let mut s = Shape::default();
    for v in samples() {
        s.absorb(&v);
        if let Some(o) = &s.object {
            assert!(o.total >= 1);
            for (i, (k, f)) in o.fields.iter().enumerate() {
                assert!(f.count >= 1 && f.count <= o.total);
                assert!(o.fields.iter().skip(i + 1).all(|(k2, _)| k2 != k));
            }
        }
    }
}

fn object_of(total: u64, fields: Vec<(&str, Shape, u64)>) -> Shape {
    let mut s = Shape::default();
    s.object = Some(ObjectShape {
        total,
        fields: fields.into_iter().map(|(k, shape, count)| (k.to_string(), Field { shape, count })).collect(),
    });
    s
}

fn field_names(s: &Shape) -> Vec<String> {
    s.object.as_ref().unwrap().fields.iter().map(|(k, _)| k.clone()).collect()
}

#[test]
fn merge_associativity_needs_distinct_names_in_the_third_shape() {
    let leaf = |name: &str| object_of(1, vec![(name, Shape::from_value(&JsonValue::Null), 1)]);
    let x = object_of(1, vec![]);
    let c1 = object_of(1, vec![("p", leaf("q"), 1), ("p", leaf("r"), 1)]);
    let c2 = object_of(1, vec![("p", leaf("s"), 1)]);
    let a = object_of(1, vec![("k", x, 1)]);
    let b = object_of(1, vec![]);
    let c = object_of(1, vec![("k", c1, 1), ("k", c2, 1)]);
    let mut left = a.clone();
    left.merge(&b);
    left.merge(&c);
    let mut bc = b.clone();
    bc.merge(&c);
    let mut right = a.clone();
    right.merge(&bc);
    let inner = |s: &Shape| {
        let k = &s.object.as_ref().unwrap().fields[0].1.shape;
        field_names(&k.object.as_ref().unwrap().fields[0].1.shape)
    };
    assert_eq!(inner(&left), vec!["q", "r", "s"]);
    assert_eq!(inner(&right), vec!["q", "s", "r"]);
    assert_ne!(left, right);
}
