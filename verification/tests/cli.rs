use degu::{infer_from_values, parse_json, render, EmitOptions, Format, JsonValue};

/// Parses JSON text into the library's value type.
fn parse(text: &str) -> JsonValue {
    parse_json(text).unwrap()
}

/// What the command line prints for these inputs.
fn run(inputs: &[&str], format: Format, strict: bool, name: &str) -> String {
    let values: Vec<JsonValue> = inputs.iter().map(|t| parse(t)).collect();
    let shape = infer_from_values(values);
    let opts = EmitOptions { format, strict, root_name: name.to_string() };
    render(&shape, &opts)
}

#[test]
fn json_schema_from_stdin() {
    let out = run(&[r#"{"a":1,"b":"x"}"#], Format::JsonSchema, false, "Root");
    assert!(out.contains("\"$schema\""));
    assert!(out.contains("\"a\""));
    assert!(out.contains("\"integer\""));
    assert!(out.contains("\"required\": [\"a\", \"b\"]"));
}

#[test]
fn typescript_output() {
    let out = run(&[r#"[{"a":1,"b":"x"},{"a":2}]"#], Format::TypeScript, false, "Root");
    assert!(out.contains("export interface Root"));
    assert!(out.contains("a: number;"));
    assert!(out.contains("b?: string;"));
}

#[test]
fn typescript_strict_all_required() {
    let out = run(&[r#"[{"a":1,"b":"x"},{"a":2}]"#], Format::TypeScript, true, "Root");
    assert!(out.contains("b: string;"));
    assert!(out.contains("a: number;"));
}

#[test]
fn zod_output() {
    let out = run(&[r#"{"id":1,"name":"a","tags":["x","y"]}"#], Format::Zod, false, "User");
    assert!(out.contains("import { z }"));
    assert!(out.contains("export const User ="));
    assert!(out.contains("z.array(z.string())"));
    assert!(out.contains("z.number().int()"));
}

#[test]
fn nullable_union() {
    let out = run(&[r#"[{"a":1},{"a":null},{"a":"x"}]"#], Format::TypeScript, false, "Root");
    assert!(out.contains("number | string | null"));
}

#[test]
fn file_input_merging() {
    let out = run(&[r#"{"id":1,"name":"x"}"#, r#"{"id":2}"#], Format::TypeScript, false, "Root");
    assert!(out.contains("id: number;"));
    assert!(out.contains("name?: string;"));
}

#[test]
fn top_level_array_of_scalars() {
    let out = run(&["[1, 2, 3]"], Format::TypeScript, false, "Root");
    assert!(out.contains("number[]"));
}

#[test]
fn json_schema_strict_has_additional_properties_false() {
    let out = run(&[r#"{"a":1}"#], Format::JsonSchema, true, "Root");
    assert!(out.contains("\"additionalProperties\": false"));
}

#[test]
fn json_schema_exact_document() {
    let out = run(&[r#"{"a":1,"b":"x"}"#], Format::JsonSchema, false, "Root");
    let expected = "{\n  \"$schema\": \"http://json-schema.org/draft-07/schema#\",\n  \"type\": \"object\",\n  \"properties\": {\n    \"a\": {\n      \"type\": \"integer\"\n    },\n    \"b\": {\n      \"type\": \"string\"\n    }\n  },\n  \"required\": [\"a\", \"b\"]\n}\n";
    assert_eq!(out, expected);
}

#[test]
fn json_schema_optional_field_and_union_types() {
    let out = run(&[r#"[{"a":1,"b":null},{"a":"s"}]"#], Format::JsonSchema, false, "Root");
    let expected = "{\n  \"$schema\": \"http://json-schema.org/draft-07/schema#\",\n  \"type\": \"object\",\n  \"properties\": {\n    \"a\": {\n      \"type\": [\"integer\", \"string\"]\n    },\n    \"b\": {\n      \"type\": \"null\"\n    }\n  },\n  \"required\": [\"a\"]\n}\n";
    assert_eq!(out, expected);
}

#[test]
fn json_schema_strict_requires_every_field() {
    let out = run(&[r#"[{"a":1,"b":true},{"a":2}]"#], Format::JsonSchema, true, "Root");
    assert!(out.contains("\"required\": [\"a\", \"b\"]"));
    assert!(out.contains(",\n  \"additionalProperties\": false\n}\n"));
}

#[test]
fn json_schema_array_items() {
    let out = run(&["[[1.5], []]"], Format::JsonSchema, false, "Root");
    let expected = "{\n  \"$schema\": \"http://json-schema.org/draft-07/schema#\",\n  \"type\": \"array\",\n  \"items\": {\n    \"type\": \"array\",\n    \"items\": {\n      \"type\": \"number\"\n    }\n  }\n}\n";
    assert_eq!(out, expected);
}

#[test]
fn json_schema_empty_items_and_empty_body() {
    let out = run(&["[[]]"], Format::JsonSchema, false, "Root");
    let expected = "{\n  \"$schema\": \"http://json-schema.org/draft-07/schema#\",\n  \"type\": \"array\",\n  \"items\": {\n    \"type\": \"array\",\n    \"items\": {}\n  }\n}\n";
    assert_eq!(out, expected);
    let empty = render(&degu::Shape::default(), &EmitOptions::default());
    assert_eq!(empty, "{\n  \"$schema\": \"http://json-schema.org/draft-07/schema#\"\n}\n");
}

#[test]
fn typescript_exact_interface() {
    let out = run(&[r#"[{"a":1,"b":"x"},{"a":2}]"#], Format::TypeScript, false, "Root");
    assert_eq!(out, "export interface Root {\n  a: number;\n  b?: string;\n}\n");
}

#[test]
fn typescript_nested_object_and_quoted_key() {
    let out = run(&[r#"{"my-key":{"inner":true},"ok_1":[1,"a"],"q\"x":null}"#], Format::TypeScript, false, "T");
    let expected = "export interface T {\n  \"my-key\": {\n    inner: boolean;\n  };\n  ok_1: Array<number | string>;\n  \"q\\\"x\": null;\n}\n";
    assert_eq!(out, expected);
}

#[test]
fn typescript_type_alias_for_non_object_root() {
    assert_eq!(run(&["\"s\"", "null"], Format::TypeScript, false, "R"), "export type R = string | null;\n");
    assert_eq!(run(&["[]"], Format::TypeScript, false, "R"), "export type R = unknown[];\n");
    assert_eq!(run(&["[]"], Format::TypeScript, true, "R"), "export type R = never[];\n");
    assert_eq!(run(&["{\"a\":1}", "null"], Format::TypeScript, false, "R"), "export type R = {\n  a: number;\n} | null;\n");
}

#[test]
fn zod_exact_schema() {
    let out = run(&[r#"{"id":1,"name":"a","tags":["x","y"]}"#], Format::Zod, false, "User");
    let expected = "import { z } from \"zod\";\n\nexport const User = z.object({\n  id: z.number().int(),\n  name: z.string(),\n  tags: z.array(z.string()),\n});\nexport type User = z.infer<typeof User>;\n";
    assert_eq!(out, expected);
}

#[test]
fn zod_optional_nullable_union_and_strict() {
    let out = run(&[r#"[{"a":1,"b":null},{"a":1.5,"c":true}]"#], Format::Zod, false, "S");
    assert!(out.contains("  a: z.number(),\n"));
    assert!(out.contains("  b: z.unknown().nullable().optional(),\n"));
    assert!(out.contains("  c: z.boolean().optional(),\n"));
    let strict = run(&[r#"[{"a":1},{"b":"x"}]"#], Format::Zod, true, "S");
    assert!(strict.contains("export const S = z.object({\n  a: z.number().int(),\n  b: z.string(),\n}).strict();\n"));
    let union = run(&["1", "\"x\"", "[true]"], Format::Zod, true, "U");
    assert!(union.contains("export const U = z.union([z.number().int(), z.string(), z.array(z.boolean())]);\n"));
    let never = run(&["null"], Format::Zod, true, "N");
    assert!(never.contains("export const N = z.never().nullable();\n"));
}

#[test]
fn top_level_array_of_objects_spreads_samples() {
    let spread = run(&[r#"[{"a":1},{"b":2}]"#], Format::TypeScript, false, "Root");
    assert_eq!(spread, "export interface Root {\n  a?: number;\n  b?: number;\n}\n");
    let mixed = run(&[r#"[{"a":1}, 2]"#], Format::TypeScript, false, "Root");
    assert_eq!(mixed, "export type Root = Array<number | {\n  a: number;\n}>;\n");
}

#[test]
fn default_options() {
    let o = EmitOptions::default();
    assert_eq!(o.format, Format::JsonSchema);
    assert!(!o.strict);
    assert_eq!(o.root_name, "Root");
}

#[test]
fn json_schema_strict_empty_items_admit_nothing() {
    let out = run(&["[]"], Format::JsonSchema, true, "Root");
    let expected = "{\n  \"$schema\": \"http://json-schema.org/draft-07/schema#\",\n  \"type\": \"array\",\n  \"items\": {\n    \"not\": {}\n  }\n}\n";
    assert_eq!(out, expected);
    let loose = run(&["[]"], Format::JsonSchema, false, "Root");
    assert!(loose.contains("\"items\": {}"));
}
