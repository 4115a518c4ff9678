//! JSON values of `serde_json`: how they are built here, and what they hold.

use vstd::prelude::*;

verus! {

/// A JSON document: what stands behind a `serde_json::Value`.
pub enum Json {
    Bool(bool),
    Number(nat),
    Text(Seq<char>),
    Array(Seq<Json>),
    Object(Map<Seq<char>, Json>),
}

/// `serde_json::Value`, a JSON value. What one holds is named by [`document`].
#[verifier::external_type_specification]
#[verifier::external_body]
pub struct ExValue(serde_json::Value);

/// `serde_json::Map`, the members of a JSON object. What one holds is named by
/// [`members`].
#[verifier::external_type_specification]
#[verifier::external_body]
#[verifier::reject_recursive_types(K)]
#[verifier::reject_recursive_types(V)]
pub struct ExMembers<K, V>(serde_json::Map<K, V>);

/// `serde_json::Error`, carried through unread.
#[verifier::external_type_specification]
#[verifier::external_body]
pub struct ExJsonError(serde_json::Error);

/// The document that a `serde_json::Value` holds.
pub uninterp spec fn document(value: serde_json::Value) -> Json;

/// The members that a `serde_json::Map` holds, by key.
pub uninterp spec fn members(map: serde_json::Map<String, serde_json::Value>) -> Map<
    Seq<char>,
    Json,
>;

/// The text that `serde_json::to_string_pretty` writes for a list of values.
pub uninterp spec fn pretty_text(items: Seq<Json>) -> Seq<char>;

/// The documents that the values of a list hold.
pub open spec fn documents(values: Seq<serde_json::Value>) -> Seq<Json> {
    values.map_values(|value: serde_json::Value| document(value))
}

/// `serde_json::Value::from` of a `bool`: the JSON boolean of that truth value.
#[verifier::external_body]
pub(crate) fn bool_value(flag: bool) -> (value: serde_json::Value)
    ensures
        document(value) == Json::Bool(flag),
{
    serde_json::Value::from(flag)
}

/// `serde_json::Value::from` of a `usize`: the JSON number of that value.
#[verifier::external_body]
pub(crate) fn number_value(number: usize) -> (value: serde_json::Value)
    ensures
        document(value) == Json::Number(number as nat),
{
    serde_json::Value::from(number)
}

/// `serde_json::Value::from` of a `&str`: the JSON string of those characters.
#[verifier::external_body]
pub(crate) fn text_value(text: &str) -> (value: serde_json::Value)
    ensures
        document(value) == Json::Text(text@),
{
    serde_json::Value::from(text)
}

/// `serde_json::Value::from` of a `Vec` of values: the JSON array of them, in
/// their order.
#[verifier::external_body]
pub(crate) fn array_value(items: Vec<serde_json::Value>) -> (value: serde_json::Value)
    ensures
        document(value) == Json::Array(documents(items@)),
{
    serde_json::Value::from(items)
}

/// `serde_json::Value::from` of a `serde_json::Map`: the JSON object of those
/// members.
#[verifier::external_body]
pub(crate) fn object_value(
    map: serde_json::Map<String, serde_json::Value>,
) -> (value: serde_json::Value)
    ensures
        document(value) == Json::Object(members(map)),
{
    serde_json::Value::from(map)
}

/// `serde_json::Map::new`: a map without members.
#[verifier::external_body]
pub(crate) fn no_members() -> (map: serde_json::Map<String, serde_json::Value>)
    ensures
        members(map) == (Map::<Seq<char>, Json>::empty()),
{
    serde_json::Map::new()
}

/// `serde_json::Map::insert`: the key then has the value, the other members stay.
/// The value that it had before, which `insert` returns, is dropped.
#[verifier::external_body]
pub(crate) fn insert_member(
    map: &mut serde_json::Map<String, serde_json::Value>,
    key: &str,
    value: serde_json::Value,
)
    ensures
        members(*final(map)) == members(*old(map)).insert(key@, document(value)),
{
    map.insert(String::from(key), value);
}

/// `serde_json::to_string_pretty` of a list of values. Writing fails only for a
/// type that refuses to be written or a map whose keys are no strings, and a list
/// of `serde_json::Value` is neither. The members of an object are written in the
/// order of their keys, so that the text depends on the documents alone.
#[verifier::external_body]
pub(crate) fn to_string_pretty(
    items: &Vec<serde_json::Value>,
) -> (result: Result<String, serde_json::Error>)
    ensures
        result is Ok,
        result->Ok_0@ == pretty_text(documents(items@)),
{
    serde_json::to_string_pretty(items)
}

} // verus!
