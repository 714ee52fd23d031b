use degu::shape::{Field, ObjectShape, ScalarSet, Shape};
use degu::JsonValue;

fn text(s: &str) -> JsonValue {
    JsonValue::String(s.to_string())
}

fn object(members: Vec<(&str, JsonValue)>) -> JsonValue {
    JsonValue::Object(members.into_iter().map(|(k, v)| (k.to_string(), v)).collect())
}

#[test]
fn scalar_inference() {
    let s = Shape::from_value(&text("hi"));
    assert!(s.scalars.string);
    assert!(!s.nullable);
}

#[test]
fn int_vs_float() {
    let s = Shape::from_value(&JsonValue::Integer(1));
    assert!(s.scalars.integer);
    assert!(!s.scalars.float);
    let s = Shape::from_value(&JsonValue::Float);
    assert!(!s.scalars.integer);
    assert!(s.scalars.float);
}

#[test]
fn object_fields_tracked() {
    let s = Shape::from_value(&object(vec![("a", JsonValue::Integer(1)), ("b", text("x"))]));
    let o = s.object.as_ref().unwrap();
    assert_eq!(o.total, 1);
    assert_eq!(o.fields.len(), 2);
    assert!(o.get("a").unwrap().shape.scalars.integer);
}

#[test]
fn merging_makes_field_optional() {
    let mut s = Shape::from_value(&object(vec![("a", JsonValue::Integer(1)), ("b", JsonValue::Integer(2))]));
    s.absorb(&object(vec![("a", JsonValue::Integer(3))]));
    let o = s.object.as_ref().unwrap();
    assert_eq!(o.total, 2);
    assert_eq!(o.get("a").unwrap().count, 2);
    assert_eq!(o.get("b").unwrap().count, 1);
}

#[test]
fn merging_produces_union() {
    let mut s = Shape::from_value(&JsonValue::Integer(1));
    s.absorb(&text("hi"));
    assert!(s.scalars.integer && s.scalars.string);
}

#[test]
fn null_makes_nullable() {
    let mut s = Shape::from_value(&object(vec![("a", JsonValue::Integer(1))]));
    s.absorb(&object(vec![("a", JsonValue::Null)]));
    let a = s.object.as_ref().unwrap().get("a").unwrap();
    assert!(a.shape.nullable);
    assert!(a.shape.scalars.integer);
}

#[test]
fn array_elements_merged() {
    let s = Shape::from_value(&JsonValue::Array(vec![
        JsonValue::Integer(1),
        JsonValue::Integer(2),
        text("three"),
    ]));
    let inner = s.array.as_ref().unwrap();
    assert!(inner.scalars.integer);
    assert!(inner.scalars.string);
}

#[test]
fn bool_and_null_kinds() {
    let mut s = Shape::from_value(&JsonValue::Bool(true));
    assert!(s.scalars.boolean);
    assert!(!s.nullable);
    s.absorb(&JsonValue::Null);
    assert!(s.nullable);
    assert_eq!(s.variant_count(), 1);
}

#[test]
fn repeated_key_counts_once() {
    let s = Shape::from_value(&object(vec![("a", JsonValue::Integer(1)), ("a", text("x"))]));
    let o = s.object.as_ref().unwrap();
    assert_eq!(o.total, 1);
    assert_eq!(o.fields.len(), 1);
    let a = o.get("a").unwrap();
    assert_eq!(a.count, 1);
    assert!(a.shape.scalars.integer);
    assert!(!a.shape.scalars.string);
}

#[test]
fn fields_keep_first_observation_order() {
    let mut s = Shape::from_value(&object(vec![("b", JsonValue::Integer(1))]));
    s.absorb(&object(vec![("c", JsonValue::Integer(1)), ("a", JsonValue::Integer(1)), ("b", JsonValue::Integer(1))]));
    let o = s.object.as_ref().unwrap();
    let names: Vec<&str> = o.fields.iter().map(|(k, _)| k.as_str()).collect();
    assert_eq!(names, vec!["b", "c", "a"]);
    assert_eq!(o.get("b").unwrap().count, 2);
    assert_eq!(o.get("c").unwrap().count, 1);
    assert!(o.get("z").is_none());
}

#[test]
fn nested_arrays_accumulate() {
    let mut s = Shape::from_value(&JsonValue::Array(vec![JsonValue::Integer(1)]));
    s.absorb(&JsonValue::Array(vec![JsonValue::Array(vec![])]));
    let inner = s.array.as_ref().unwrap();
    assert!(inner.scalars.integer);
    let deeper = inner.array.as_ref().unwrap();
    assert!(deeper.is_empty());
    assert!(!inner.is_empty());
    assert_eq!(inner.variant_count(), 2);
}

#[test]
fn merge_adds_counts_and_unions_kinds() {
    let mut a = Shape::from_value(&object(vec![("x", JsonValue::Integer(1)), ("y", text("s"))]));
    a.absorb(&object(vec![("x", JsonValue::Integer(2))]));
    let b = Shape::from_value(&object(vec![("x", JsonValue::Float), ("z", JsonValue::Null)]));
    a.merge(&b);
    let o = a.object.as_ref().unwrap();
    assert_eq!(o.total, 3);
    let names: Vec<&str> = o.fields.iter().map(|(k, _)| k.as_str()).collect();
    assert_eq!(names, vec!["x", "y", "z"]);
    let x = o.get("x").unwrap();
    assert_eq!(x.count, 3);
    assert!(x.shape.scalars.integer && x.shape.scalars.float);
    assert_eq!(o.get("y").unwrap().count, 1);
    let z = o.get("z").unwrap();
    assert_eq!(z.count, 1);
    assert!(z.shape.nullable);
    assert!(z.shape.is_empty());
}

#[test]
fn merge_into_empty_copies_other() {
    let mut a = Shape::default();
    let b = Shape::from_value(&JsonValue::Array(vec![object(vec![("k", JsonValue::Bool(false))])]));
    a.merge(&b);
    let inner = a.array.as_ref().unwrap();
    let o = inner.object.as_ref().unwrap();
    assert_eq!(o.total, 1);
    assert!(o.get("k").unwrap().shape.scalars.boolean);
    assert!(a.object.is_none());
    assert!(!a.nullable);
}

#[test]
fn merge_arrays_recursively() {
    let mut a = Shape::from_value(&JsonValue::Array(vec![JsonValue::Integer(1)]));
    let b = Shape::from_value(&JsonValue::Array(vec![text("s"), JsonValue::Null]));
    a.merge(&b);
    let inner = a.array.as_ref().unwrap();
    assert!(inner.scalars.integer && inner.scalars.string && inner.nullable);
}

#[test]
fn scalar_set_merge_and_empty() {
    let mut a = ScalarSet::default();
    assert!(a.is_empty());
    let b = ScalarSet { boolean: false, integer: true, float: false, string: true };
    a.merge(&b);
    assert!(!a.is_empty());
    assert!(a.integer && a.string && !a.boolean && !a.float);
}

#[test]
fn variant_count_counts_kinds_not_null() {
    let mut s = Shape::from_value(&JsonValue::Integer(3));
    s.absorb(&JsonValue::Float);
    s.absorb(&text("x"));
    s.absorb(&JsonValue::Bool(true));
    s.absorb(&object(vec![]));
    s.absorb(&JsonValue::Array(vec![]));
    s.absorb(&JsonValue::Null);
    assert_eq!(s.variant_count(), 6);
    assert!(!s.is_empty());
    assert!(Shape::default().is_empty());
    assert_eq!(Shape::default().variant_count(), 0);
}

#[test]
fn duplicate_keeps_everything() {
    let s = Shape::from_value(&object(vec![("a", JsonValue::Array(vec![JsonValue::Integer(1)])), ("b", JsonValue::Null)]));
    let d = s.duplicate();
    let o = d.object.as_ref().unwrap();
    assert_eq!(o.total, 1);
    assert_eq!(o.fields.len(), 2);
    assert!(o.get("a").unwrap().shape.array.as_ref().unwrap().scalars.integer);
    assert!(o.get("b").unwrap().shape.nullable);
}

#[test]
fn object_get_finds_first_field() {
    let o = ObjectShape {
        total: 2,
        fields: vec![
            ("a".to_string(), Field { shape: Shape::default(), count: 1 }),
            ("a".to_string(), Field { shape: Shape::default(), count: 2 }),
        ],
    };
    assert_eq!(o.get("a").unwrap().count, 1);
    assert!(o.get("b").is_none());
}
