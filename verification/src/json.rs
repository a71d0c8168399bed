//! Reading fields of an incoming JSON event.
use vstd::prelude::*;

verus! {

/// `serde_json::Value`, a parsed JSON document; its members are read through
/// the names below.
#[verifier::external_type_specification]
#[verifier::external_body]
pub struct ExJsonValue(serde_json::Value);

/// The JSON value a text holds, as `serde_json::from_str::<Value>` reads it,
/// or nothing when the text is not one JSON document.
pub uninterp spec fn parsed_json(text: Seq<char>) -> Option<serde_json::Value>;

/// `serde_json::from_str::<serde_json::Value>`, with the error dropped.
/// Claimed: the result is `parsed_json(text)`, which depends on the text alone.
#[verifier::external_body]
pub(crate) fn parse_json(text: &str) -> (r: Option<serde_json::Value>)
    ensures
        r == parsed_json(text@),
{
    serde_json::from_str::<serde_json::Value>(text).ok()
}

/// The string-valued members of a JSON value: for an object, each key whose
/// value is a JSON string, mapped to that string; for any other value, nothing.
pub uninterp spec fn json_strings(v: serde_json::Value) -> Map<Seq<char>, Seq<char>>;

/// Indexing a `serde_json::Value` with a string key, followed by `Value::as_str`.
/// Claimed: `Some` exactly when the value is an object whose member `key` is a string.
#[verifier::external_body]
pub(crate) fn member_str(v: &serde_json::Value, key: &str) -> (r: Option<String>)
    ensures
        r is Some <==> json_strings(*v).contains_key(key@),
        r matches Some(s) ==> s@ == json_strings(*v)[key@],
{
    v[key].as_str().map(|s| s.to_string())
}

/// The text of member `key`, or the empty string when it is absent or not a string.
pub open spec fn text_member(v: serde_json::Value, key: Seq<char>) -> Seq<char> {
    if json_strings(v).contains_key(key) { json_strings(v)[key] } else { Seq::empty() }
}

/// The integer members of a JSON value that fit an `i64`: for an object, each
/// key whose value is such a number, mapped to it; for any other value, nothing.
pub uninterp spec fn json_ints(v: serde_json::Value) -> Map<Seq<char>, i64>;

/// The boolean members of a JSON value: for an object, each key whose value is
/// `true` or `false`, mapped to it; for any other value, nothing.
pub uninterp spec fn json_bools(v: serde_json::Value) -> Map<Seq<char>, bool>;

/// Indexing a `serde_json::Value` with a string key, followed by `Value::as_i64`.
/// Claimed: `Some` exactly when the value is an object whose member `key` is an integer
/// that fits an `i64`.
#[verifier::external_body]
pub(crate) fn member_i64(v: &serde_json::Value, key: &str) -> (r: Option<i64>)
    ensures
        r is Some <==> json_ints(*v).contains_key(key@),
        r matches Some(n) ==> n == json_ints(*v)[key@],
{
    v[key].as_i64()
}

/// Indexing a `serde_json::Value` with a string key, followed by `Value::as_bool`.
/// Claimed: `Some` exactly when the value is an object whose member `key` is a boolean.
#[verifier::external_body]
pub(crate) fn member_bool(v: &serde_json::Value, key: &str) -> (r: Option<bool>)
    ensures
        r is Some <==> json_bools(*v).contains_key(key@),
        r matches Some(b) ==> b == json_bools(*v)[key@],
{
    v[key].as_bool()
}

/// The integer member `key`, or `0` when it is missing or not such an integer.
pub open spec fn int_member(v: serde_json::Value, key: Seq<char>) -> i64 {
    if json_ints(v).contains_key(key) { json_ints(v)[key] } else { 0 }
}

/// The boolean member `key`, or `false` when it is missing or not a boolean.
pub open spec fn bool_member(v: serde_json::Value, key: Seq<char>) -> bool {
    if json_bools(v).contains_key(key) { json_bools(v)[key] } else { false }
}

} // verus!
