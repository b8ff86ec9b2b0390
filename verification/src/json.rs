//! JSON documents, as the `serde_json` crate holds, reads and writes them.
//!
//! Nothing here is proved. The crate's values are carried through as they
//! are; what they hold, and the text that the crate writes for them, get
//! names that contracts can speak of.

use vstd::prelude::*;

verus! {

/// `serde_json::Value`, carried through without looking inside.
#[verifier::external_type_specification]
#[verifier::external_body]
pub struct ExValue(serde_json::Value);

/// `serde_json::Map`, carried through without looking inside.
#[verifier::external_type_specification]
#[verifier::external_body]
#[verifier::reject_recursive_types(K)]
#[verifier::reject_recursive_types(V)]
pub struct ExMap<K, V>(serde_json::Map<K, V>);

/// `serde_json::Error`, carried through without looking inside.
#[verifier::external_type_specification]
#[verifier::external_body]
pub struct ExError(serde_json::Error);

/// An object of the crate: its fields by their keys.
pub type JsonObject = serde_json::Map<String, serde_json::Value>;

/// The documents that this library writes.
pub enum JsonDoc {
    Text(Seq<char>),
    Number(u64),
    List(Seq<JsonDoc>),
    Object(Map<Seq<char>, JsonDoc>),
}

/// The document that a value of the crate holds.
pub uninterp spec fn json_doc(value: serde_json::Value) -> JsonDoc;

/// The fields that an object of the crate holds.
pub uninterp spec fn json_fields(object: JsonObject) -> Map<Seq<char>, JsonDoc>;

/// No fields at all.
pub open spec fn no_fields() -> Map<Seq<char>, JsonDoc> {
    Map::empty()
}

/// The text that the crate writes for an object with the given fields;
/// `None` where it writes none for them.
pub uninterp spec fn json_text(fields: Map<Seq<char>, JsonDoc>) -> Option<Seq<char>>;

/// What the crate reads from a text: `None` where the text is no JSON
/// document, `Some(None)` for a document that is no object, and for an object
/// its keys in the order in which the crate walks them, each with its value
/// where that is a string.
pub uninterp spec fn json_record(text: Seq<char>) -> Option<
    Option<Seq<(Seq<char>, Option<Seq<char>>)>>,
>;

/// `serde_json::Value::String`: the value that holds the given text.
#[verifier::external_body]
pub(crate) fn text_value(text: String) -> (value: serde_json::Value)
    ensures
        json_doc(value) == JsonDoc::Text(text@),
{
    serde_json::Value::String(text)
}

/// `serde_json::Value::from` on a `u64`: the value that holds the number.
#[verifier::external_body]
pub(crate) fn number_value(n: u64) -> (value: serde_json::Value)
    ensures
        json_doc(value) == JsonDoc::Number(n),
{
    serde_json::Value::from(n)
}

/// The documents that a list of values holds.
pub open spec fn docs_of(items: Seq<serde_json::Value>) -> Seq<JsonDoc> {
    items.map_values(|item: serde_json::Value| json_doc(item))
}

/// `serde_json::Value::Array`: the value that holds the given items in order.
#[verifier::external_body]
pub(crate) fn list_value(items: Vec<serde_json::Value>) -> (value: serde_json::Value)
    ensures
        json_doc(value) == JsonDoc::List(docs_of(items@)),
{
    serde_json::Value::Array(items)
}

/// `serde_json::Value::Object`: the value that holds the given fields.
#[verifier::external_body]
pub(crate) fn object_value(fields: JsonObject) -> (value: serde_json::Value)
    ensures
        json_doc(value) == JsonDoc::Object(json_fields(fields)),
{
    serde_json::Value::Object(fields)
}

/// `serde_json::Map::new`: an object without fields.
#[verifier::external_body]
pub(crate) fn new_object() -> (object: JsonObject)
    ensures
        json_fields(object) == no_fields(),
{
    serde_json::Map::new()
}

/// `serde_json::Map::insert`: sets one field and leaves the others; a field
/// of that key that was there is replaced.
#[verifier::external_body]
pub(crate) fn insert_field(fields: &mut JsonObject, key: String, value: serde_json::Value)
    ensures
        json_fields(*final(fields)) == json_fields(*old(fields)).insert(key@, json_doc(value)),
{
    fields.insert(key, value);
}

/// `serde_json::to_string` on an object. The contract only names the
/// outcome: whether the crate returns a text, and which, is its answer for
/// these fields, and depends on nothing else. It does not say that the crate
/// returns one.
#[verifier::external_body]
pub(crate) fn to_text(fields: &JsonObject) -> (text: Result<String, serde_json::Error>)
    ensures
        match text {
            Ok(written) => json_text(json_fields(*fields)) == Some(written@),
            Err(_) => json_text(json_fields(*fields)) is None,
        },
{
    serde_json::to_string(fields)
}

/// `serde_json::from_str` into a `serde_json::Value`, and for an object the
/// walk over its fields by `serde_json::Map::into_iter`. The contract only
/// names the outcome: it is the crate's answer for this text, and depends on
/// nothing else. The crate keeps an object's fields in the order of their
/// keys, and of two fields with one key the later.
#[verifier::external_body]
pub(crate) fn parse_record(text: &str) -> (parsed: Result<
    Option<Vec<(String, Option<String>)>>,
    serde_json::Error,
>)
    ensures
        match parsed {
            Ok(record) => json_record(text@) == Some(record.deep_view()),
            Err(_) => json_record(text@) is None,
        },
{
    let fields = match serde_json::from_str::<serde_json::Value>(text)? {
        serde_json::Value::Object(fields) => fields,
        _ => return Ok(None),
    };
    let text_of = |value| match value {
        serde_json::Value::String(address) => Some(address),
        _ => None,
    };
    Ok(Some(fields.into_iter().map(|(key, value)| (key, text_of(value))).collect()))
}

/// The message of an error of the crate, by its `Display`.
#[verifier::external_body]
pub(crate) fn error_text(error: &serde_json::Error) -> (message: String) {
    error.to_string()
}

} // verus!
