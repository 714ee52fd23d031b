use degu::{parse_json, JsonValue};

#[test]
fn parse_json_reads_every_kind() {
    let v = parse_json(r#"{"a": 1, "b": [true, null, 2.5, "x"], "c": {}}"#).unwrap();
    let expected = JsonValue::Object(vec![
        ("a".to_string(), JsonValue::Integer(1)),
        (
            "b".to_string(),
            JsonValue::Array(vec![
                JsonValue::Bool(true),
                JsonValue::Null,
                JsonValue::Float,
                JsonValue::String("x".to_string()),
            ]),
        ),
        ("c".to_string(), JsonValue::Object(vec![])),
    ]);
    assert_eq!(v, expected);
}

#[test]
fn parse_json_keeps_member_order() {
    let v = parse_json(r#"{"z": 0, "a": 0, "m": 0}"#).unwrap();
    let keys: Vec<String> = match v {
        JsonValue::Object(members) => members.into_iter().map(|(k, _)| k).collect(),
        _ => panic!("not an object"),
    };
    assert_eq!(keys, vec!["z".to_string(), "a".to_string(), "m".to_string()]);
}

#[test]
fn parse_json_integer_range() {
    assert_eq!(parse_json("-9223372036854775808").unwrap(), JsonValue::Integer(-9223372036854775808));
    assert_eq!(parse_json("18446744073709551615").unwrap(), JsonValue::Integer(18446744073709551615));
    assert_eq!(parse_json("18446744073709551616").unwrap(), JsonValue::Float);
    assert_eq!(parse_json("3.0").unwrap(), JsonValue::Float);
}

#[test]
fn parse_json_rejects_malformed_text() {
    let e = parse_json("{not json").unwrap_err();
    assert!(e.starts_with("failed to parse JSON input: "));
    assert!(e.len() > "failed to parse JSON input: ".len());
    assert!(parse_json("").is_err());
    assert!(parse_json("1 2").is_err());
}
