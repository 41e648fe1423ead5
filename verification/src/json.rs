//! JSON documents read with `serde_json`, seen as trees of plain values.

use vstd::prelude::*;
use vstd::utf8::{decode_utf8, valid_utf8};

verus! {

/// `serde_json::Value`, declared so that it can stand in signatures; what
/// it holds is seen only through `json_tree`.
#[verifier::external_type_specification]
#[verifier::external_body]
pub struct ExJsonValue(serde_json::Value);

/// A JSON value as a tree of plain values. A number carries nothing here:
/// none of the decisions of this crate reads one.
pub enum JsonTree {
    Null,
    Bool(bool),
    Number,
    Text(Seq<char>),
    Array(Seq<JsonTree>),
    Object(Map<Seq<char>, JsonTree>),
}

/// The tree that a `serde_json::Value` holds.
pub uninterp spec fn json_tree(v: serde_json::Value) -> JsonTree;

/// What `serde_json::from_str` reads from `text` into a `serde_json::Value`:
/// its tree, or `None` where it reports an error.
pub uninterp spec fn json_document(text: Seq<char>) -> Option<JsonTree>;

/// What `String::from_utf8_lossy` makes of `bytes`.
pub uninterp spec fn lossy_utf8(bytes: Seq<u8>) -> Seq<char>;

/// `serde_json::from_str::<serde_json::Value>`. Trusted: the value it
/// returns holds the tree that `json_document` names for the text, and it
/// fails exactly where `json_document` is `None`; the error itself is
/// dropped.
#[verifier::external_body]
pub(crate) fn json_from_str(text: &str) -> (r: Option<serde_json::Value>)
    ensures
        r is Some <==> json_document(text@) is Some,
        r matches Some(v) ==> json_document(text@) == Some(json_tree(v)),
{
    serde_json::from_str::<serde_json::Value>(text).ok()
}

/// `serde_json::Value::get` with a string key. Trusted, as its source shows:
/// on an object it returns the member under `key` if there is one, and on
/// any other value it returns `None`.
#[verifier::external_body]
pub(crate) fn json_get<'a>(v: &'a serde_json::Value, key: &str) -> (r: Option<&'a serde_json::Value>)
    ensures
        match json_tree(*v) {
            JsonTree::Object(m) => match r {
                Some(x) => m.contains_key(key@) && m[key@] == json_tree(*x),
                None => !m.contains_key(key@),
            },
            _ => r is None,
        },
{
    v.get(key)
}

/// `serde_json::Value::as_array`. Trusted, as its source shows: the items
/// of an array, in order, and `None` for any other value.
#[verifier::external_body]
pub(crate) fn json_as_array(v: &serde_json::Value) -> (r: Option<&Vec<serde_json::Value>>)
    ensures
        match json_tree(*v) {
            JsonTree::Array(items) => r matches Some(a) && a@.map_values(
                |x: serde_json::Value| json_tree(x),
            ) == items,
            _ => r is None,
        },
{
    v.as_array()
}

/// `serde_json::Value::as_str`. Trusted, as its source shows: the text of a
/// string value, and `None` for any other value.
#[verifier::external_body]
pub(crate) fn json_as_str(v: &serde_json::Value) -> (r: Option<&str>)
    ensures
        match json_tree(*v) {
            JsonTree::Text(t) => r matches Some(s) && s@ == t,
            _ => r is None,
        },
{
    v.as_str()
}

/// `String::from_utf8_lossy`, made owned. Trusted: the result is the text
/// that `lossy_utf8` names, and where the bytes are valid UTF-8 it is
/// their decoding, as the documentation states; how invalid sequences are
/// replaced is left unsaid.
#[verifier::external_body]
pub(crate) fn decode_lossy(bytes: &Vec<u8>) -> (r: String)
    ensures
        r@ == lossy_utf8(bytes@),
        valid_utf8(bytes@) ==> r@ == decode_utf8(bytes@),
{
    String::from_utf8_lossy(bytes.as_slice()).into_owned()
}

} // verus!
