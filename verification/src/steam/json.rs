//! JSON documents as the library reads them, and reading values out of
//! them the way `serde_json::Value` indexing does.

use vstd::prelude::*;
use serde::Deserialize;
use crate::text::{str_eq, string_of, chars_of};

verus! {

#[verifier::external_type_specification]
#[verifier::external_body]
pub struct ExJsonValue(serde_json::Value);

/// A JSON value. A number is kept as what it is as an unsigned integer,
/// where it is one: that is all the library reads of numbers.
#[derive(Debug)]
pub enum Json {
    Null,
    Bool(bool),
    Number(Option<u64>),
    Str(String),
    Array(Vec<Json>),
    /// The members, each key once.
    Object(Vec<(String, Json)>),
}

/// What `serde_json::from_str::<serde_json::Value>` reads from `text`, as a
/// [`Json`]; `None` where `text` is no JSON document.
pub uninterp spec fn json_of(text: Seq<char>) -> Option<Json>;

/// The string that the JSON string literal at the start of `text` holds
/// (`String::deserialize` on a `serde_json::Deserializer` over `text`, which
/// reads one value and leaves the rest); `None` where `text` does not start
/// with one.
pub uninterp spec fn string_literal_of(text: Seq<char>) -> Option<Seq<char>>;

/// A `serde_json::Value` as a [`Json`], variant by variant.
#[verifier::external_body]
fn json_from(v: serde_json::Value) -> (r: Json) {
    match v {
        serde_json::Value::Null => Json::Null,
        serde_json::Value::Bool(b) => Json::Bool(b),
        serde_json::Value::Number(n) => Json::Number(n.as_u64()),
        serde_json::Value::String(s) => Json::Str(s),
        serde_json::Value::Array(a) => Json::Array(a.into_iter().map(json_from).collect()),
        serde_json::Value::Object(o) => Json::Object(o.into_iter().map(|(k, x)| (k, json_from(x))).collect()),
    }
}

/// Parses a JSON document (`serde_json::from_str` into a `Value`).
///
/// Trusted: the result is the document named [`json_of`], and `None`
/// exactly where serde_json refuses the text.
#[verifier::external_body]
pub(crate) fn parse_json(text: &str) -> (r: Option<Json>)
    ensures
        r == json_of(text@),
{
    serde_json::from_str::<serde_json::Value>(text).ok().map(json_from)
}

/// Reads the JSON string literal at the start of `text` and leaves the rest
/// (`String::deserialize` on `serde_json::Deserializer::from_str`).
///
/// Trusted: the result is the string named [`string_literal_of`].
#[verifier::external_body]
pub(crate) fn read_string_literal(text: &str) -> (r: Option<String>)
    ensures
        match r {
            Some(s) => string_literal_of(text@) == Some(s@),
            None => string_literal_of(text@) is None,
        },
{
    String::deserialize(&mut serde_json::Deserializer::from_str(text)).ok()
}

/// The value of the first member named `key`.
pub open spec fn member(fs: Seq<(String, Json)>, key: Seq<char>) -> Option<Json>
    decreases fs.len(),
{
    if fs.len() == 0 {
        None
    } else if fs[0].0@ == key {
        Some(fs[0].1)
    } else {
        member(fs.drop_first(), key)
    }
}

/// `j[key]`: the member `key` of an object; nothing for another value.
pub open spec fn key_of(j: Option<Json>, key: Seq<char>) -> Option<Json> {
    match j {
        Some(Json::Object(fs)) => member(fs@, key),
        _ => None,
    }
}

/// `j[i]`: the element `i` of an array; nothing for another value.
pub open spec fn element_of(j: Option<Json>, i: int) -> Option<Json> {
    match j {
        Some(Json::Array(a)) => if 0 <= i < a@.len() { Some(a@[i]) } else { None },
        _ => None,
    }
}

/// `j.as_str()`.
pub open spec fn str_of(j: Option<Json>) -> Option<Seq<char>> {
    match j {
        Some(Json::Str(s)) => Some(s@),
        _ => None,
    }
}

/// `j.as_u64()`.
pub open spec fn u64_of(j: Option<Json>) -> Option<u64> {
    match j {
        Some(Json::Number(n)) => n,
        _ => None,
    }
}

/// `j.as_array()`.
pub open spec fn array_of(j: Option<Json>) -> Option<Seq<Json>> {
    match j {
        Some(Json::Array(a)) => Some(a@),
        _ => None,
    }
}

/// `j.is_object()`.
pub open spec fn is_object(j: Option<Json>) -> bool {
    j matches Some(Json::Object(_))
}

/// `j[key]`.
pub fn get<'a>(j: Option<&'a Json>, key: &str) -> (r: Option<&'a Json>)
    ensures
        match r {
            Some(v) => key_of(match j { Some(x) => Some(*x), None => None }, key@) == Some(*v),
            None => key_of(match j { Some(x) => Some(*x), None => None }, key@) is None,
        },
{
    let fs = match j {
        Some(Json::Object(fs)) => fs,
        _ => return None,
    };
    let ghost all = fs@;
    assert(all.skip(0) == all);
    for i in 0..fs.len()
        invariant
            all == fs@,
            member(all, key@) == member(all.skip(i as int), key@),
    {
        assert(all.skip(i as int)[0] == all[i as int]);
        assert(all.skip(i as int).drop_first() == all.skip(i + 1));
        if str_eq(fs[i].0.as_str(), key) {
            return Some(&fs[i].1);
        }
    }
    assert(all.skip(fs.len() as int) =~= Seq::<(String, Json)>::empty());
    None
}

/// `j[i]`.
pub fn at<'a>(j: Option<&'a Json>, i: usize) -> (r: Option<&'a Json>)
    ensures
        match r {
            Some(v) => element_of(match j { Some(x) => Some(*x), None => None }, i as int) == Some(*v),
            None => element_of(match j { Some(x) => Some(*x), None => None }, i as int) is None,
        },
{
    match j {
        Some(Json::Array(a)) => if i < a.len() { Some(&a[i]) } else { None },
        _ => None,
    }
}

/// `j.as_str()`, as an owned string.
pub fn as_text(j: Option<&Json>) -> (r: Option<String>)
    ensures
        match r {
            Some(s) => str_of(match j { Some(x) => Some(*x), None => None }) == Some(s@),
            None => str_of(match j { Some(x) => Some(*x), None => None }) is None,
        },
{
    match j {
        Some(Json::Str(s)) => Some(string_of(&chars_of(s.as_str()))),
        _ => None,
    }
}

/// `j.as_u64()`.
pub fn as_u64(j: Option<&Json>) -> (r: Option<u64>)
    ensures
        r == u64_of(match j { Some(x) => Some(*x), None => None }),
{
    match j {
        Some(Json::Number(n)) => *n,
        _ => None,
    }
}

} // verus!
