use degu::bounds::{members_count, value_count, values_count};
use degu::emit::json_schema::{render_object, render_shape};
use degu::emit::typescript::{render_object_body, render_type, ts_ident};
use degu::text::str_eq;
use degu::emit::zod::{base_expr, key_literal, render_expr};
use degu::{infer_from_values, parse_json, try_infer_from_values, EmitOptions, Format, JsonValue, Shape};

fn values(texts: &[&str]) -> Vec<JsonValue> {
    texts.iter().map(|t| parse_json(t).unwrap()).collect()
}

fn opts(format: Format, strict: bool) -> EmitOptions {
    EmitOptions { format, strict, root_name: "Root".to_string() }
}

#[test]
fn counting_json_values() {
    let v = parse_json(r#"[1, [2], {"a": 3, "b": {}}]"#).unwrap();
    assert_eq!(value_count(&v), Some(7));
    assert_eq!(values_count(&values(&["1", "[]", "{}"])), Some(3));
    assert_eq!(members_count(&vec![("a".to_string(), JsonValue::Array(vec![JsonValue::Null]))]), Some(2));
    assert_eq!(values_count(&vec![]), Some(0));
}

#[test]
fn try_infer_matches_infer() {
    let texts = [r#"[{"a":1},{"a":2,"b":"x"}]"#, "null", "[1.5]"];
    let checked = try_infer_from_values(values(&texts)).unwrap();
    assert_eq!(checked, infer_from_values(values(&texts)));
    assert_eq!(try_infer_from_values(vec![]), Some(Shape::default()));
}

#[test]
fn inferring_joined_inputs_is_merging() {
    let xs = [r#"{"a":1,"b":true}"#, "[1, 2]"];
    let ys = [r#"[{"b":"s"},{"c":null}]"#, "null", r#"{"a":2.5}"#];
    let mut joined = values(&xs);
    joined.extend(values(&ys));
    let whole = infer_from_values(joined);
    let mut parts = infer_from_values(values(&xs));
    parts.merge(&infer_from_values(values(&ys)));
    assert_eq!(whole, parts);
}

#[test]
fn merging_the_empty_shape_changes_nothing() {
    let s = infer_from_values(values(&[r#"{"a":[1,{"b":null}]}"#, "\"x\""]));
    let mut right = s.clone();
    right.merge(&Shape::default());
    assert_eq!(right, s);
    let mut left = Shape::default();
    left.merge(&s);
    assert_eq!(left, s);
    assert_eq!(infer_from_values(vec![]), Shape::default());
}

#[test]
fn render_shape_members() {
    let loose = opts(Format::JsonSchema, false);
    let strict = opts(Format::JsonSchema, true);
    assert_eq!(render_shape(&Shape::default(), &loose, 1), "");
    assert_eq!(render_shape(&Shape::default(), &strict, 1), "  \"not\": {}");
    let null_only = Shape::from_value(&JsonValue::Null);
    assert_eq!(render_shape(&null_only, &loose, 2), "    \"type\": \"null\"");
    let empty_array = Shape::from_value(&parse_json("[]").unwrap());
    assert_eq!(render_shape(&empty_array, &strict, 1), "  \"type\": \"array\",\n  \"items\": {\n    \"not\": {}\n  }");
    assert_eq!(render_shape(&empty_array, &loose, 1), "  \"type\": \"array\",\n  \"items\": {}");
}

#[test]
fn render_object_members() {
    let s = infer_from_values(values(&[r#"[{"a":1,"b":"x"},{"a":2}]"#]));
    let obj = s.object.as_ref().unwrap();
    let loose = render_object(obj, &opts(Format::JsonSchema, false), 0);
    assert_eq!(
        loose,
        "\"properties\": {\n  \"a\": {\n    \"type\": \"integer\"\n  },\n  \"b\": {\n    \"type\": \"string\"\n  }\n},\n\"required\": [\"a\"]"
    );
    let strict = render_object(obj, &opts(Format::JsonSchema, true), 0);
    assert!(strict.ends_with(",\n\"required\": [\"a\", \"b\"],\n\"additionalProperties\": false"));
}

#[test]
fn typescript_pieces() {
    assert_eq!(ts_ident("ok_1$"), "ok_1$");
    assert_eq!(ts_ident("1st"), "\"1st\"");
    assert_eq!(ts_ident("q\"x"), "\"q\\\"x\"");
    assert_eq!(ts_ident(""), "\"\"");
    let s = infer_from_values(values(&[r#"[{"a":1,"b":"x"},{"a":2}]"#]));
    let mut out = String::from("> ");
    render_object_body(s.object.as_ref().unwrap(), &opts(Format::TypeScript, false), 2, &mut out);
    assert_eq!(out, ">     a: number;\n    b?: string;\n");
    assert_eq!(render_type(&Shape::default(), &opts(Format::TypeScript, true), 0), "never");
    assert_eq!(render_type(&Shape::default(), &opts(Format::TypeScript, false), 0), "unknown");
}

#[test]
fn zod_pieces() {
    let null_only = Shape::from_value(&JsonValue::Null);
    assert_eq!(render_expr(&null_only, &opts(Format::Zod, false), 0), "z.unknown().nullable()");
    assert_eq!(base_expr(&null_only, &opts(Format::Zod, false), 0), "z.unknown()");
    assert_eq!(render_expr(&null_only, &opts(Format::Zod, true), 0), "z.never().nullable()");
    assert_eq!(key_literal("my-key"), "\"my-key\"");
    assert_eq!(key_literal("id"), "id");
}

#[test]
fn comparing_strings_by_characters() {
    assert!(str_eq("aé\"", "aé\""));
    assert!(str_eq("", ""));
    assert!(!str_eq("ab", "a"));
    assert!(!str_eq("é", "e"));
}

#[test]
fn merging_objects_field_by_field() {
    let mut a = infer_from_values(values(&[r#"{"a":1,"b":true}"#]));
    let b = infer_from_values(values(&[r#"[{"b":false,"c":"x"},{"c":"y"}]"#]));
    a.merge(&b);
    let obj = a.object.as_ref().unwrap();
    assert_eq!(obj.total, 3);
    let names: Vec<&str> = obj.fields.iter().map(|(k, _)| k.as_str()).collect();
    assert_eq!(names, vec!["a", "b", "c"]);
    let counts: Vec<u64> = obj.fields.iter().map(|(_, f)| f.count).collect();
    assert_eq!(counts, vec![1, 2, 2]);
}

#[test]
fn absorbing_an_object_counts_it_once() {
    let mut s = infer_from_values(values(&[r#"{"x":1,"y":2}"#]));
    s.absorb(&parse_json(r#"{"z":0,"x":null,"x":"dup"}"#).unwrap());
    let obj = s.object.as_ref().unwrap();
    assert_eq!(obj.total, 2);
    let names: Vec<&str> = obj.fields.iter().map(|(k, _)| k.as_str()).collect();
    assert_eq!(names, vec!["x", "y", "z"]);
    assert_eq!(obj.fields[0].1.count, 2);
}
