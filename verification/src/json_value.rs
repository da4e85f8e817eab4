//! Steps into JSON values.
use serde_json::Value;
use vstd::prelude::*;

verus! {

/// The JSON value that a text spells, if it spells one.
pub uninterp spec fn parsed_json(text: Seq<char>) -> Option<Value>;

/// `serde_json::from_str` into a JSON value: the value, or the failure, depends on
/// the text alone.
#[verifier::external_body]
pub(crate) fn parse_json(text: &str) -> (r: Result<Value, serde_json::Error>)
    ensures
        match r {
            Ok(v) => parsed_json(text@) == Some(v),
            Err(_) => parsed_json(text@) is None,
        },
{
    serde_json::from_str(text)
}

/// The field `key` of a JSON value, if it is an object that has it.
pub uninterp spec fn json_field(v: Value, key: Seq<char>) -> Option<Value>;

/// `serde_json::Value::get` with a string.
#[verifier::external_body]
pub(crate) fn get_field<'a>(v: &'a Value, key: &str) -> (r: Option<&'a Value>)
    ensures
        (match r {
            Some(x) => Some(*x),
            None => None,
        }) == json_field(*v, key@),
{
    v.get(key)
}

/// The element at `index` of a JSON value, if it is an array that is long enough.
pub uninterp spec fn json_element(v: Value, index: usize) -> Option<Value>;

/// `serde_json::Value::get` with a position.
#[verifier::external_body]
pub(crate) fn get_element(v: &Value, index: usize) -> (r: Option<&Value>)
    ensures
        (match r {
            Some(x) => Some(*x),
            None => None,
        }) == json_element(*v, index),
{
    v.get(index)
}

/// The characters of a JSON value, if it is a string.
pub uninterp spec fn json_str(v: Value) -> Option<Seq<char>>;

/// `serde_json::Value::as_str`, copied.
#[verifier::external_body]
pub(crate) fn get_str(v: &Value) -> (r: Option<String>)
    ensures
        (match r {
            Some(s) => Some(s@),
            None => None,
        }) == json_str(*v),
{
    v.as_str().map(str::to_owned)
}

/// The number that a JSON value is, if it is an unsigned one that fits.
pub uninterp spec fn json_u64(v: Value) -> Option<u64>;

/// `serde_json::Value::as_u64`.
#[verifier::external_body]
pub(crate) fn get_u64(v: &Value) -> (r: Option<u64>)
    ensures
        r == json_u64(*v),
{
    v.as_u64()
}

} // verus!
