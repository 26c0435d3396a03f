//! JSON documents, as `serde_json` reads them.

use serde_json::Value;
use vstd::prelude::*;

verus! {

/// A JSON value of `serde_json`.
#[verifier::external_type_specification]
#[verifier::external_body]
pub struct ExValue(Value);

/// A JSON value.
pub ghost enum JsonView {
    /// `null`.
    Null,
    /// A truth value.
    Bool(bool),
    /// A number; its value where it is written as a whole number from zero to `u64::MAX`.
    Number(Option<u64>),
    /// A string.
    Text(Seq<char>),
    /// An array.
    List(Seq<JsonView>),
    /// An object.
    Object(Map<Seq<char>, JsonView>),
}

/// What a JSON value holds.
pub uninterp spec fn json_of(v: Value) -> JsonView;

/// What `serde_json` makes of a text: the value, or why there is none.
pub uninterp spec fn json_document(text: Seq<char>) -> Result<JsonView, Seq<char>>;

/// `serde_json::from_str`: the value of a text, or the error in words.
#[verifier::external_body]
pub(crate) fn parse_json(text: &str) -> (r: Result<Value, String>)
    ensures
        match r {
            Ok(v) => json_document(text@) == Ok::<JsonView, Seq<char>>(json_of(v)),
            Err(e) => json_document(text@) == Err::<JsonView, Seq<char>>(e@),
        },
{
    serde_json::from_str(text).map_err(|e| e.to_string())
}

/// The texts of pairs of strings.
pub open spec fn pairs_view(v: Seq<(String, String)>) -> Seq<(Seq<char>, Seq<char>)> {
    v.map_values(|p: (String, String)| (p.0@, p.1@))
}

/// What `serde_json` makes of a text that should be an object of strings: its keys and
/// values, in the order of the keys, of a key that occurs again the last value; or why there
/// are none.
pub uninterp spec fn json_texts(text: Seq<char>) -> Result<
    Seq<(Seq<char>, Seq<char>)>,
    Seq<char>,
>;

/// `serde_json::from_str` into a map from strings to strings: the entries of the map, or the
/// error in words.
#[verifier::external_body]
pub(crate) fn parse_texts(text: &str) -> (r: Result<Vec<(String, String)>, String>)
    ensures
        match r {
            Ok(v) => json_texts(text@) == Ok::<Seq<(Seq<char>, Seq<char>)>, Seq<char>>(
                pairs_view(v@),
            ),
            Err(e) => json_texts(text@) == Err::<Seq<(Seq<char>, Seq<char>)>, Seq<char>>(e@),
        },
{
    serde_json::from_str::<std::collections::BTreeMap<String, String>>(text)
        .map(|m| m.into_iter().collect())
        .map_err(|e| e.to_string())
}

/// The value of a key, where the value is an object that has it.
pub open spec fn member(v: JsonView, key: Seq<char>) -> Option<JsonView> {
    match v {
        JsonView::Object(m) => if m.dom().contains(key) {
            Some(m[key])
        } else {
            None
        },
        _ => None,
    }
}

/// `Value::get` with a string: the value of a key of an object.
#[verifier::external_body]
pub(crate) fn json_get<'a>(v: &'a Value, key: &str) -> (r: Option<&'a Value>)
    ensures
        match r {
            Some(x) => member(json_of(*v), key@) == Some(json_of(*x)),
            None => member(json_of(*v), key@) is None,
        },
{
    v.get(key)
}

/// `Value::as_array`: the items of an array.
pub assume_specification[ Value::as_array ](v: &Value) -> (r: Option<&Vec<Value>>)
    ensures
        match r {
            Some(items) => json_of(*v) == JsonView::List(json_items(items@)),
            None => !(json_of(*v) is List),
        },
;

/// `Value::as_str`: the text of a string.
pub assume_specification[ Value::as_str ](v: &Value) -> (r: Option<&str>)
    ensures
        match r {
            Some(s) => json_of(*v) == JsonView::Text(s@),
            None => !(json_of(*v) is Text),
        },
;

/// `Value::as_u64`: the value of a number, where it is written as a whole number in range.
pub assume_specification[ Value::as_u64 ](v: &Value) -> (r: Option<u64>)
    ensures
        r == json_whole(json_of(*v)),
;

/// What JSON values hold.
pub open spec fn json_items(v: Seq<Value>) -> Seq<JsonView> {
    v.map_values(|x: Value| json_of(x))
}

/// The value of a number, where it is written as a whole number in range.
pub open spec fn json_whole(v: JsonView) -> Option<u64> {
    match v {
        JsonView::Number(n) => n,
        _ => None,
    }
}

/// The text under a key, where there is a string.
pub open spec fn text_member(v: JsonView, key: Seq<char>) -> Option<Seq<char>> {
    match member(v, key) {
        Some(JsonView::Text(s)) => Some(s),
        _ => None,
    }
}

/// The array under a key.
pub open spec fn list_member(v: JsonView, key: Seq<char>) -> Option<Seq<JsonView>> {
    match member(v, key) {
        Some(JsonView::List(items)) => Some(items),
        _ => None,
    }
}

/// The text under a key, where there is a string.
pub fn get_text<'a>(v: &'a Value, key: &str) -> (r: Option<&'a str>)
    ensures
        match r {
            Some(s) => text_member(json_of(*v), key@) == Some(s@),
            None => text_member(json_of(*v), key@) is None,
        },
{
    match json_get(v, key) {
        Some(x) => x.as_str(),
        None => None,
    }
}

/// The array under a key.
pub fn get_list<'a>(v: &'a Value, key: &str) -> (r: Option<&'a Vec<Value>>)
    ensures
        match r {
            Some(items) => list_member(json_of(*v), key@) == Some(json_items(items@)),
            None => list_member(json_of(*v), key@) is None,
        },
{
    match json_get(v, key) {
        Some(x) => x.as_array(),
        None => None,
    }
}

} // verus!
