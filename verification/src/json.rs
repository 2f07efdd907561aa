//! JSON values as plain data, read from text with `serde_json`.
use serde_json::Value;
use vstd::prelude::*;

verus! {

#[verifier::external_type_specification]
#[verifier::external_body]
pub struct ExValue(serde_json::Value);

/// A JSON number: its text as `serde_json` prints it, and its value when it
/// is an integer that fits in `i64`.
pub struct JsonNumber {
    pub text: String,
    pub int: Option<i64>,
}

/// A JSON document. Object fields are in the order `serde_json` keeps them
/// (sorted by key, each key once).
pub enum Json {
    Null,
    Bool(bool),
    Number(JsonNumber),
    Str(String),
    Array(Vec<Json>),
    Object(Vec<(String, Json)>),
}

/// What `serde_json::from_str::<Value>` reads from a text, as plain data.
pub uninterp spec fn json_parse(text: Seq<char>) -> Option<Json>;

/// How `serde_json` prints a value (compact form, `Value`'s `Display`).
pub uninterp spec fn json_display(v: Json) -> Seq<char>;

/// Turns a `serde_json::Value` into the library's `Json`, variant by variant.
#[verifier::external_body]
fn json_of(value: &Value) -> Json {
    match value {
        Value::Null => Json::Null,
        Value::Bool(b) => Json::Bool(*b),
        Value::Number(n) => Json::Number(JsonNumber { text: n.to_string(), int: n.as_i64() }),
        Value::String(s) => Json::Str(s.clone()),
        Value::Array(items) => Json::Array(items.iter().map(json_of).collect()),
        Value::Object(fields) => Json::Object(
            fields.iter().map(|(k, v)| (k.clone(), json_of(v))).collect(),
        ),
    }
}

/// Turns the library's `Json` back into a `serde_json::Value`, variant by variant.
#[verifier::external_body]
fn value_of(json: &Json) -> Value {
    match json {
        Json::Null => Value::Null,
        Json::Bool(b) => Value::Bool(*b),
        Json::Number(n) => serde_json::from_str(&n.text).unwrap_or(Value::Null),
        Json::Str(s) => Value::String(s.clone()),
        Json::Array(items) => Value::Array(items.iter().map(value_of).collect()),
        Json::Object(fields) => Value::Object(
            fields.iter().map(|(k, v)| (k.clone(), value_of(v))).collect(),
        ),
    }
}

/// Parses `text` as one JSON document (`serde_json::from_str::<Value>`);
/// `None` when it is not valid JSON.
#[verifier::external_body]
pub(crate) fn parse_json(text: &str) -> (r: Option<Json>)
    ensures
        r == json_parse(text@),
{
    serde_json::from_str::<Value>(text).ok().map(|v| json_of(&v))
}

/// Prints `v` as `serde_json` displays a `Value` (compact JSON).
#[verifier::external_body]
pub(crate) fn display_json(v: &Json) -> (r: String)
    ensures
        r@ == json_display(*v),
{
    value_of(v).to_string()
}

/// The value behind an optional reference.
pub open spec fn deref_opt(r: Option<&Json>) -> Option<Json> {
    match r {
        Some(j) => Some(*j),
        None => None,
    }
}

/// The value of `key` among `fields`, if present.
pub open spec fn lookup(fields: Seq<(String, Json)>, key: Seq<char>) -> Option<Json>
    decreases fields.len(),
{
    if fields.len() == 0 {
        None
    } else if fields[0].0@ == key {
        Some(fields[0].1)
    } else {
        lookup(fields.drop_first(), key)
    }
}

/// `value.get(key)`: the field of an object, `None` for other values.
pub open spec fn field(v: Json, key: Seq<char>) -> Option<Json> {
    match v {
        Json::Object(fields) => lookup(fields@, key),
        _ => None,
    }
}

/// The text of a string value.
pub open spec fn text_of(v: Option<Json>) -> Option<Seq<char>> {
    match v {
        Some(Json::Str(s)) => Some(s@),
        _ => None,
    }
}

/// The integer of a number value that fits `i64`.
pub open spec fn int_of(v: Option<Json>) -> Option<i64> {
    match v {
        Some(Json::Number(n)) => n.int,
        _ => None,
    }
}

/// The flag of a boolean value.
pub open spec fn bool_of(v: Option<Json>) -> Option<bool> {
    match v {
        Some(Json::Bool(b)) => Some(b),
        _ => None,
    }
}

/// Whether `v` is an object or an array.
pub open spec fn is_container(v: Json) -> bool {
    v is Object || v is Array
}

/// Looks a key up among object fields.
pub fn lookup_field<'a>(fields: &'a Vec<(String, Json)>, key: &str) -> (r: Option<&'a Json>)
    ensures
        deref_opt(r) == lookup(fields@, key@),
{
    let k = key.to_owned();
    let mut i: usize = 0;
    assert(fields@.skip(0) =~= fields@);
    while i < fields.len()
        invariant
            i <= fields.len(),
            k@ == key@,
            lookup(fields@.skip(i as int), key@) == lookup(fields@, key@),
        decreases fields.len() - i,
    {
        assert(fields@.skip(i as int).drop_first() =~= fields@.skip(i + 1));
        if fields[i].0 == k {
            return Some(&fields[i].1);
        }
        i = i + 1;
    }
    None
}

/// `value.get(key)` of `serde_json`.
pub fn get<'a>(v: &'a Json, key: &str) -> (r: Option<&'a Json>)
    ensures
        deref_opt(r) == field(*v, key@),
{
    match v {
        Json::Object(fields) => {
            assert(fields@.skip(0) =~= fields@);
            lookup_field(fields, key)
        },
        _ => None,
    }
}

/// The text of `key` when it holds a string.
pub fn get_str<'a>(v: &'a Json, key: &str) -> (r: Option<&'a String>)
    ensures
        match r { Some(s) => Some(s@), None => None } == text_of(field(*v, key@)),
{
    match get(v, key) {
        Some(Json::Str(s)) => Some(s),
        _ => None,
    }
}

/// The integer of `key` when it holds an integer that fits `i64`.
pub fn get_i64(v: &Json, key: &str) -> (r: Option<i64>)
    ensures
        r == int_of(field(*v, key@)),
{
    match get(v, key) {
        Some(Json::Number(n)) => n.int,
        _ => None,
    }
}

/// The flag of `key` when it holds a boolean.
pub fn get_bool(v: &Json, key: &str) -> (r: Option<bool>)
    ensures
        r == bool_of(field(*v, key@)),
{
    match get(v, key) {
        Some(Json::Bool(b)) => Some(*b),
        _ => None,
    }
}

} // verus!
