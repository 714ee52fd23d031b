//! The JSON values that shapes are inferred from.

use vstd::prelude::*;

use crate::text::str_eq;

verus! {

/// A JSON document, as far as shape inference reads it.
///
/// Numbers keep only what inference distinguishes: an integer (any value
/// that fits `i64` or `u64`) or a float (any other number).
/// Object members are kept in document order; a key may repeat, and
/// inference only looks at its first occurrence.
#[derive(Debug, PartialEq)]
pub enum JsonValue {
    Null,
    Bool(bool),
    Integer(i128),
    Float,
    String(String),
    Array(Vec<JsonValue>),
    Object(Vec<(String, JsonValue)>),
}

impl JsonValue {
    /// Whether the value is a JSON object.
    pub fn is_object(&self) -> (r: bool)
        ensures
            r == (*self is Object),
    {
        match self {
            JsonValue::Object(_) => true,
            _ => false,
        }
    }
}

/// Whether key `k` occurs among the first `n` members of an object.
pub open spec fn key_among(entries: Seq<(String, JsonValue)>, n: int, k: Seq<char>) -> bool {
    exists|j: int| 0 <= j < n && entries[j].0@ == k
}

/// Looking among the first `n` members is the same on the prefix of length `n`.
pub proof fn lemma_key_among_prefix(entries: Seq<(String, JsonValue)>, n: int, k: Seq<char>)
    requires
        0 <= n <= entries.len(),
    ensures
        key_among(entries.subrange(0, n), n, k) == key_among(entries, n, k),
{
    let pre = entries.subrange(0, n);
    if key_among(entries, n, k) {
        let j = choose|j: int| 0 <= j < n && entries[j].0@ == k;
        assert(pre[j] == entries[j]);
    }
    if key_among(pre, n, k) {
        let j = choose|j: int| 0 <= j < n && pre[j].0@ == k;
        assert(pre[j] == entries[j]);
    }
}

/// Whether the key `k` occurs among the first `n` members of `entries`.
pub fn key_seen(entries: &Vec<(String, JsonValue)>, n: usize, k: &str) -> (r: bool)
    requires
        n <= entries@.len(),
    ensures
        r == key_among(entries@, n as int, k@),
{
    let mut j: usize = 0;
    while j < n
        invariant
            n <= entries@.len(),
            j <= n,
            forall|i: int| 0 <= i < j ==> entries@[i].0@ != k@,
        decreases n - j,
    {
        if str_eq(entries[j].0.as_str(), k) {
            return true;
        }
        j = j + 1;
    }
    false
}

// ---------------------------------------------------------------------------
// Parsing JSON text
// ---------------------------------------------------------------------------

#[verifier::external_type_specification]
#[verifier::external_body]
pub struct ExDocument(serde_json::Value);

#[verifier::external_type_specification]
#[verifier::external_body]
pub struct ExSyntaxError(serde_json::Error);

/// The value that `serde_json` reads from a JSON text, as a [`JsonValue`]
/// (`None` when it rejects the text).
pub uninterp spec fn json_parsed(input: Seq<char>) -> Option<JsonValue>;

/// A `serde_json` document as a [`JsonValue`]: numbers that fit `i64` or
/// `u64` become integers, every other number a float; object members keep
/// their order.
#[verifier::external_body]
fn document_value(v: serde_json::Value) -> JsonValue {
    match v {
        serde_json::Value::Null => JsonValue::Null,
        serde_json::Value::Bool(b) => JsonValue::Bool(b),
        serde_json::Value::Number(n) => match (n.as_i64(), n.as_u64()) {
            (Some(i), _) => JsonValue::Integer(i as i128),
            (None, Some(u)) => JsonValue::Integer(u as i128),
            (None, None) => JsonValue::Float,
        },
        serde_json::Value::String(t) => JsonValue::String(t),
        serde_json::Value::Array(a) => JsonValue::Array(a.into_iter().map(document_value).collect()),
        serde_json::Value::Object(m) => JsonValue::Object(m.into_iter().map(|(k, x)| (k, document_value(x))).collect()),
    }
}

/// Reads one JSON document with `serde_json::from_str` (into
/// `serde_json::Value`) and converts it with [`document_value`].
///
/// Claimed: the call succeeds exactly when the text is one the parser
/// accepts, and what it returns depends on the text alone; both are named
/// by [`json_parsed`]. Which texts `serde_json` accepts, and what its error
/// says, is left unstated.
#[verifier::external_body]
fn parse_document(input: &str) -> (r: Result<JsonValue, serde_json::Error>)
    ensures
        r is Ok <==> json_parsed(input@) is Some,
        r matches Ok(v) ==> json_parsed(input@) == Some(v),
{
    serde_json::from_str::<serde_json::Value>(input).map(document_value)
}

/// The message of a `serde_json` error (its `Display` text).
///
/// Nothing is claimed of the text.
#[verifier::external_body]
fn error_message(e: &serde_json::Error) -> String {
    e.to_string()
}

/// Parse a JSON document from a string.
///
/// On failure the message is `failed to parse JSON input: ` followed by
/// the parser's own description of the error.
pub fn parse_json(input: &str) -> (r: Result<JsonValue, String>)
    ensures
        r is Ok <==> json_parsed(input@) is Some,
        r matches Ok(v) ==> json_parsed(input@) == Some(v),
        r matches Err(m) ==> exists|detail: Seq<char>| m@ == "failed to parse JSON input: "@ + detail,
{
    match parse_document(input) {
        Ok(v) => Ok(v),
        Err(e) => {
            let mut m = String::from_str("failed to parse JSON input: ");
            let detail = error_message(&e);
            m.append(detail.as_str());
            assert(m@ == "failed to parse JSON input: "@ + detail@);
            Err(m)
        },
    }
}

} // verus!
