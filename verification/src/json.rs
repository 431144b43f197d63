//! The JSON values that the GitHub API answers with, held as plain data,
//! reading them from reply text, and the look-ups the reply handling makes
//! on them.

use vstd::prelude::*;
use crate::text::same_text;

verus! {

/// A JSON value.  Objects keep their members in order; looking a key up
/// finds its first member.  Objects read by `parse_json` come from a map and
/// so never hold a key twice; for them the first member is the only one.
#[derive(Debug)]
pub enum Json {
    Null,
    Bool(bool),
    /// A number, in its decimal text.
    Number(String),
    Str(String),
    Array(Vec<Json>),
    Object(Vec<(String, Json)>),
}

/// The value of the first member called `key`.
pub open spec fn member(pairs: Seq<(String, Json)>, key: Seq<char>) -> Option<Json>
    decreases pairs.len(),
{
    if pairs.len() == 0 {
        None
    } else if pairs[0].0@ == key {
        Some(pairs[0].1)
    } else {
        member(pairs.drop_first(), key)
    }
}

/// `v[key]` when `v` is an object that has the key (`Value::get`).
pub open spec fn get(v: Json, key: Seq<char>) -> Option<Json> {
    match v {
        Json::Object(pairs) => member(pairs@, key),
        _ => None,
    }
}

/// The text of a string value (`Value::as_str`).
pub open spec fn as_str(v: Json) -> Option<Seq<char>> {
    match v {
        Json::Str(s) => Some(s@),
        _ => None,
    }
}

/// The elements of an array value (`Value::as_array`).
pub open spec fn as_array(v: Json) -> Option<Seq<Json>> {
    match v {
        Json::Array(a) => Some(a@),
        _ => None,
    }
}

/// `v[key]` as a string, if it is one.
pub open spec fn str_member(v: Json, key: Seq<char>) -> Option<Seq<char>> {
    match get(v, key) {
        Some(x) => as_str(x),
        None => None,
    }
}

/// The member of `v` called `key`.
pub fn json_get<'a>(v: &'a Json, key: &str) -> (r: Option<&'a Json>)
    ensures
        r is None <==> get(*v, key@) is None,
        r matches Some(x) ==> get(*v, key@) == Some(*x),
{
    match v {
        Json::Object(pairs) => {
            let mut i: usize = 0;
            assert(pairs@.skip(0) =~= pairs@);
            assert(get(*v, key@) == member(pairs@, key@));
            while i < pairs.len()
                invariant
                    i <= pairs.len(),
                    get(*v, key@) == member(pairs@, key@),
                    member(pairs@, key@) == member(pairs@.skip(i as int), key@),
                decreases pairs.len() - i,
            {
                assert(pairs@.skip(i as int)[0] == pairs@[i as int]);
                assert(pairs@.skip(i as int).drop_first() =~= pairs@.skip(i + 1));
                if same_text(pairs[i].0.as_str(), key) {
                    assert(member(pairs@, key@) == Some(pairs@[i as int].1));
                    return Some(&pairs[i].1);
                }
                i = i + 1;
            }
            None
        },
        _ => None,
    }
}

/// The text of `v`, if it is a string.
pub fn json_as_str(v: &Json) -> (r: Option<&str>)
    ensures
        match r {
            None => as_str(*v) is None,
            Some(s) => as_str(*v) == Some(s@),
        },
{
    match v {
        Json::Str(s) => Some(s.as_str()),
        _ => None,
    }
}

/// The elements of `v`, if it is an array.
pub fn json_as_array(v: &Json) -> (r: Option<&Vec<Json>>)
    ensures
        match r {
            None => as_array(*v) is None,
            Some(a) => as_array(*v) == Some(a@),
        },
{
    match v {
        Json::Array(a) => Some(a),
        _ => None,
    }
}

/// `v[key]` as a string, if it is one.
pub fn json_str_member<'a>(v: &'a Json, key: &str) -> (r: Option<&'a str>)
    ensures
        match r {
            None => str_member(*v, key@) is None,
            Some(s) => str_member(*v, key@) == Some(s@),
        },
{
    match json_get(v, key) {
        Some(x) => json_as_str(x),
        None => None,
    }
}

/// The outside JSON value that reply text is read into.
#[verifier::external_type_specification]
#[verifier::external_body]
pub struct ExJsonValue(serde_json::Value);

/// The JSON value that `serde_json` reads from `text` (as a
/// `serde_json::Value`, converted member by member into a `Json`, numbers
/// by their decimal text), or `None` when `text` is not JSON.
pub uninterp spec fn parsed_json(text: Seq<char>) -> Option<Json>;

/// Converts a `serde_json::Value` into a `Json`, variant by variant.
#[verifier::external_body]
fn json_from_value(v: serde_json::Value) -> Json {
    match v {
        serde_json::Value::Null => Json::Null,
        serde_json::Value::Bool(b) => Json::Bool(b),
        serde_json::Value::Number(n) => Json::Number(n.to_string()),
        serde_json::Value::String(s) => Json::Str(s),
        serde_json::Value::Array(a) => Json::Array(a.into_iter().map(json_from_value).collect()),
        serde_json::Value::Object(m) => Json::Object(
            m.into_iter().map(|(k, x)| (k, json_from_value(x))).collect(),
        ),
    }
}

/// Reads `text` as JSON with `serde_json::from_str` into a
/// `serde_json::Value`; `None` when it is not JSON.  What is read is named,
/// not stated: the result is `parsed_json` of the text.
#[verifier::external_body]
pub(crate) fn parse_json(text: &str) -> (r: Option<Json>)
    ensures
        r == parsed_json(text@),
{
    serde_json::from_str::<serde_json::Value>(text).ok().map(json_from_value)
}

} // verus!
