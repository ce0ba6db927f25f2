//! JSON documents. In memory a document is a `serde_json::Value`; in
//! contracts it is a [`Json`], the mathematical value that the
//! `serde_json::Value` holds ([`json_of`]).
//!
//! Nothing here is proved of `serde_json`: each function below that calls
//! it states what the library relies on, in terms of [`json_of`], of the
//! document that a text spells ([`json_parse`]) and of the text of a
//! document ([`json_text`]).

use crate::strmap::{distinct_keys, entries_map};
use crate::text::{chars_of, find_char_from, lemma_find_char, pieces, string_of};
use serde_json::Value;
use vstd::prelude::*;

verus! {

#[verifier::external_type_specification]
#[verifier::external_body]
pub struct ExValue(serde_json::Value);

#[verifier::external_type_specification]
#[verifier::external_body]
pub struct ExJsonError(serde_json::Error);

/// A JSON document as a mathematical value. A number is held as its
/// decimal text, an object as the map of its members.
pub enum Json {
    Null,
    Bool(bool),
    Number(Seq<char>),
    String(Seq<char>),
    Array(Seq<Json>),
    Object(Map<Seq<char>, Json>),
}

/// What a `serde_json::Value` holds.
pub uninterp spec fn json_of(v: Value) -> Json;

/// The document that a text spells; `None` where the text is no JSON.
pub uninterp spec fn json_parse(text: Seq<char>) -> Option<Json>;

/// The compact text of a document.
pub uninterp spec fn json_text(j: Json) -> Seq<char>;

/// The document is read back from its own text. Not every document is: a
/// number with a fraction can be read back as a neighbour of itself.
pub open spec fn survives(j: Json) -> bool {
    json_parse(json_text(j)) == Some(j)
}

/// What each of a sequence of values holds.
pub open spec fn jsons(values: Seq<Value>) -> Seq<Json> {
    Seq::new(values.len(), |i: int| json_of(values[i]))
}

/// The members that a list of entries spells, each name with what the
/// value of an entry of that name holds.
pub open spec fn json_entries(entries: Seq<(String, Value)>) -> Map<Seq<char>, Json> {
    Map::new(
        |k: Seq<char>| entries_map(entries).contains_key(k),
        |k: Seq<char>| json_of(entries_map(entries)[k]),
    )
}

/// The member called `name` of an object; `None` for an object without it
/// and for any document that is no object.
pub open spec fn member_of(j: Json, name: Seq<char>) -> Option<Json> {
    match j {
        Json::Object(m) => if m.contains_key(name) {
            Some(m[name])
        } else {
            None
        },
        _ => None,
    }
}

/// The members of a document by name: those of an object, none for any
/// other document.
pub open spec fn members_of(j: Json) -> Map<Seq<char>, Json> {
    match j {
        Json::Object(m) => m,
        _ => Map::empty(),
    }
}

/// `serde_json::from_str` at type `Value`: parses one JSON document that
/// fills the whole text. Whether it succeeds and what it gives depend on
/// the text alone.
#[verifier::external_body]
pub(crate) fn parse(text: &str) -> (r: Result<Value, serde_json::Error>)
    ensures
        match r {
            Ok(v) => json_parse(text@) == Some(json_of(v)),
            Err(_) => json_parse(text@) is None,
        },
{
    serde_json::from_str::<Value>(text)
}

/// The message of a `serde_json::Error` (its `Display` form). Nothing is
/// claimed of the message.
#[verifier::external_body]
pub(crate) fn error_message(e: &serde_json::Error) -> String {
    e.to_string()
}

/// The `Display` form of a `Value`: its compact JSON text, which depends
/// on what the value holds alone.
#[verifier::external_body]
pub(crate) fn to_text(v: &Value) -> (r: String)
    ensures
        r@ == json_text(json_of(*v)),
{
    v.to_string()
}

/// `Value::get` with a string index: the member of an object.
#[verifier::external_body]
pub(crate) fn member<'a>(v: &'a Value, name: &str) -> (r: Option<&'a Value>)
    ensures
        match r {
            Some(c) => member_of(json_of(*v), name@) == Some(json_of(*c)),
            None => member_of(json_of(*v), name@) is None,
        },
{
    v.get(name)
}

/// `Value::as_str`: the text of a string.
#[verifier::external_body]
pub(crate) fn as_str<'a>(v: &'a Value) -> (r: Option<&'a str>)
    ensures
        match r {
            Some(s) => json_of(*v) == Json::String(s@),
            None => !(json_of(*v) is String),
        },
{
    v.as_str()
}

/// The `Display` form of the `Number` in a `Value::Number`: its decimal
/// text.
#[verifier::external_body]
pub(crate) fn number_text(v: &Value) -> (r: Option<String>)
    ensures
        match r {
            Some(s) => json_of(*v) == Json::Number(s@),
            None => !(json_of(*v) is Number),
        },
{
    match v {
        Value::Number(n) => Some(n.to_string()),
        _ => None,
    }
}

/// `Value::as_array`, copied: the elements of an array.
#[verifier::external_body]
pub(crate) fn elements(v: &Value) -> (r: Option<Vec<Value>>)
    ensures
        match r {
            Some(items) => json_of(*v) == Json::Array(jsons(items@)),
            None => !(json_of(*v) is Array),
        },
{
    v.as_array().cloned()
}

/// `Value::as_object`, copied out entry by entry: the members of an object,
/// each name once.
#[verifier::external_body]
pub(crate) fn members(v: &Value) -> (r: Option<Vec<(String, Value)>>)
    ensures
        match r {
            Some(list) => distinct_keys(list@) && json_of(*v) == Json::Object(json_entries(list@)),
            None => !(json_of(*v) is Object),
        },
{
    v.as_object().map(|m| m.iter().map(|(k, c)| (k.clone(), c.clone())).collect())
}

/// `Clone` of a `Value`: a value that holds the same.
#[verifier::external_body]
pub(crate) fn clone_value(v: &Value) -> (r: Value)
    ensures
        json_of(r) == json_of(*v),
{
    v.clone()
}

/// `Value::String`: the JSON string with the given text.
#[verifier::external_body]
pub(crate) fn string_value(s: String) -> (r: Value)
    ensures
        json_of(r) == Json::String(s@),
{
    Value::String(s)
}

/// `Value::Array`: the JSON array of the given elements.
#[verifier::external_body]
pub(crate) fn array_value(items: Vec<Value>) -> (r: Value)
    ensures
        json_of(r) == Json::Array(jsons(items@)),
{
    Value::Array(items)
}

/// `Value::Object` of a `serde_json::Map` collected from entries. Where no
/// name occurs twice, the object has exactly the given members.
#[verifier::external_body]
pub(crate) fn object_value(entries: Vec<(String, Value)>) -> (r: Value)
    ensures
        distinct_keys(entries@) ==> json_of(r) == Json::Object(json_entries(entries@)),
{
    Value::Object(entries.into_iter().collect())
}

/// The document reached from `j` by descending through objects along
/// `names`; `None` where a name is missing, where a document on the way is
/// no object, and for no names at all.
pub open spec fn resolve(j: Json, names: Seq<Seq<char>>) -> Option<Json>
    decreases names.len(),
{
    if names.len() == 0 {
        None
    } else {
        match member_of(j, names[0]) {
            None => None,
            Some(c) => if names.len() == 1 {
                Some(c)
            } else {
                resolve(c, names.skip(1))
            },
        }
    }
}

/// The document found in `j` under a dotted path: the path is split at its
/// dots and followed through objects. Arrays are not entered.
pub open spec fn field_of(j: Json, path: Seq<char>) -> Option<Json> {
    resolve(j, pieces(path, '.', 0))
}

/// Looks up a dotted path in a document.
pub fn get_nested_field<'a>(value: &'a Value, field: &str) -> (r: Option<&'a Value>)
    ensures
        match r {
            Some(c) => field_of(json_of(*value), field@) == Some(json_of(*c)),
            None => field_of(json_of(*value), field@) is None,
        },
{
    let chars = chars_of(field);
    let ghost s = chars@;
    let mut current: &Value = value;
    let mut from: usize = 0;
    loop
        invariant
            from <= chars.len(),
            s == chars@,
            s == field@,
            resolve(json_of(*current), pieces(s, '.', from as int)) == field_of(
                json_of(*value),
                field@,
            ),
        decreases chars.len() - from,
    {
        let dot = find_char_from(&chars, '.', from);
        let name = string_of(&chars, from, dot);
        proof {
            lemma_find_char(s, '.', from as int);
            if dot < chars.len() {
                lemma_find_char(s, '.', dot + 1);
                let rest = pieces(s, '.', dot + 1);
                let all = pieces(s, '.', from as int);
                assert(rest.len() >= 1);
                assert(all =~= seq![s.subrange(from as int, dot as int)] + rest);
                assert(all.skip(1) =~= rest);
            }
        }
        match member(current, name.as_str()) {
            None => {
                return None;
            },
            Some(c) => {
                if dot >= chars.len() {
                    return Some(c);
                } else {
                    current = c;
                    from = dot + 1;
                }
            },
        }
    }
}

} // verus!
