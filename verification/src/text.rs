//! Text from outside the library: the bytes of a Stream parsed into a
//! document by `serde_json`, and a path quoted as Rust's `Debug` quotes it.
use vstd::prelude::*;

use crate::json::JsonNumber::{Float, NegInt, PosInt};
use crate::json::{distinct_names, Json, JsonValue};
use serde_json::Value;

verus! {

/// `serde_json`'s document type, carried opaquely between the parser and
/// the conversion into the library's document.
#[verifier::external_type_specification]
#[verifier::external_body]
pub struct SerdeJsonValue(Value);

/// The document that JSON text parses to (objects in document order), or
/// the parser's account of why the text is not JSON.
pub uninterp spec fn json_text(bytes: Seq<u8>) -> Result<Json, Seq<char>>;

/// Calls `serde_json::from_slice` for a `serde_json::Value` and takes the
/// result over into a [`JsonValue`], one arm per variant. Claimed: the result
/// is the parse named [`json_text`] of exactly these bytes, and its objects
/// have members of distinct names (the parser inserts each member through
/// `Map::insert`, which replaces a repeated name); on failure, the error's own
/// message. Nothing more is said of what the parser accepts.
#[verifier::external_body]
pub(crate) fn parse_json(bytes: &[u8]) -> (r: Result<JsonValue, String>)
    ensures
        match json_text(bytes@) {
            Ok(document) => r matches Ok(value) && value@ == document && distinct_names(value@),
            Err(message) => r matches Err(e) && e@ == message,
        },
{
    match serde_json::from_slice::<Value>(bytes) {
        Ok(value) => Ok(document_from(&value)),
        Err(error) => Err(error.to_string()),
    }
}

/// The conversion of [`parse_json`]: one arm per variant of
/// `serde_json::Value`, numbers told apart as `serde_json` tells them apart.
#[verifier::external_body]
fn document_from(value: &Value) -> JsonValue {
    match value {
        Value::Null => JsonValue::Null,
        Value::Bool(b) => JsonValue::Bool(*b),
        Value::Number(n) => JsonValue::Number(match (n.as_u64(), n.as_i64()) {
            (Some(u), _) => PosInt(u),
            (None, Some(i)) => NegInt(i),
            _ => Float(n.as_f64().map_or(0, |x| x.to_bits())),
        }),
        Value::String(text) => JsonValue::String(text.clone()),
        Value::Array(items) => JsonValue::Array(items.iter().map(document_from).collect()),
        Value::Object(ms) => JsonValue::Object(ms.iter().map(|(k, m)| (k.clone(), document_from(m))).collect()),
    }
}

/// Text as `str`'s `Debug` writes it: in double quotes, with escapes.
pub uninterp spec fn debug_quoted(text: Seq<char>) -> Seq<char>;

/// Calls `format!` with `{:?}` on `text`. Claimed: the result is the quoting
/// named [`debug_quoted`] of exactly this text.
#[verifier::external_body]
pub(crate) fn quoted(text: &str) -> (q: String)
    ensures
        q@ == debug_quoted(text@),
{
    format!("{text:?}")
}

} // verus!
