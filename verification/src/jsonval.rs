//! Access to JSON documents through `serde_json`: the value type is
//! opaque here, and the adapter reads it through these thin wrappers.

use vstd::prelude::*;

verus! {

#[verifier::external_type_specification]
#[verifier::external_body]
pub struct ExValue(serde_json::Value);

/// Whether a string is a well-formed JSON document, as
/// `serde_json::from_str` decides it. Parsing depends on the characters
/// alone.
pub uninterp spec fn json_parses(s: Seq<char>) -> bool;

/// Relies on `serde_json::from_str::<Value>`: parses a JSON document,
/// succeeding exactly on well-formed input.
#[verifier::external_body]
pub fn json_parse(s: &str) -> (r: Option<serde_json::Value>)
    ensures
        r is Some <==> json_parses(s@),
{
    serde_json::from_str(s).ok()
}

/// Relies on `serde_json::Value::get` with a string index: the value of
/// the named object member, if the value is an object with that member.
#[verifier::external_body]
pub fn json_get<'a>(v: &'a serde_json::Value, key: &str) -> (r: Option<&'a serde_json::Value>) {
    v.get(key)
}

/// Relies on `serde_json::Value::as_array`: the elements, when the
/// value is an array.
#[verifier::external_body]
pub fn json_as_array(v: &serde_json::Value) -> (r: Option<&Vec<serde_json::Value>>) {
    v.as_array()
}

/// Relies on `serde_json::Value::as_str`: the string content, when the
/// value is a string.
#[verifier::external_body]
pub fn json_as_str(v: &serde_json::Value) -> (r: Option<&str>) {
    v.as_str()
}

/// Relies on `serde_json::Value::as_i64`: the integer content, when the
/// value is an integer representable as `i64`.
#[verifier::external_body]
pub fn json_as_i64(v: &serde_json::Value) -> (r: Option<i64>) {
    v.as_i64()
}

} // verus!
