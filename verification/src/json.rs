//! JSON objects with scalar fields, written and read by `serde_json`.

use vstd::prelude::*;
use vstd::utf8::encode_utf8;

verus! {

/// `serde_json::Value`: a JSON value, which is only carried through.
#[verifier::external_type_specification]
#[verifier::external_body]
pub struct ExJsonValue(serde_json::Value);

/// `serde_json::Map`: the fields of a JSON object, which `object_fields` names.
#[verifier::external_type_specification]
#[verifier::external_body]
#[verifier::reject_recursive_types(K)]
#[verifier::reject_recursive_types(V)]
pub struct ExJsonMap<K, V>(serde_json::Map<K, V>);

/// The value of a field. `Other` is anything but a truth value, a text or a number
/// that is whole, not negative and below `2^64`.
#[derive(Debug)]
pub enum JsonField {
    Flag(bool),
    Text(String),
    Count(u64),
    Other,
}

/// What a `JsonField` says.
pub enum JsonValue {
    Flag(bool),
    Text(Seq<char>),
    Count(u64),
    Other,
}

impl View for JsonField {
    type V = JsonValue;

    open spec fn view(&self) -> JsonValue {
        match self {
            JsonField::Flag(b) => JsonValue::Flag(*b),
            JsonField::Text(s) => JsonValue::Text(s@),
            JsonField::Count(n) => JsonValue::Count(*n),
            JsonField::Other => JsonValue::Other,
        }
    }
}

/// The fields of an object.
pub uninterp spec fn object_fields(object: serde_json::Map<String, serde_json::Value>) -> Map<
    Seq<char>,
    JsonValue,
>;

/// The compact text of an object.
pub uninterp spec fn object_text(fields: Map<Seq<char>, JsonValue>) -> Seq<char>;

/// The object that some bytes hold, if they hold one.
pub uninterp spec fn parsed_object(bytes: Seq<u8>) -> Option<Map<Seq<char>, JsonValue>>;

pub open spec fn no_fields() -> Map<Seq<char>, JsonValue> {
    Map::empty()
}

/// Every field is a truth value, a text or a number.
pub open spec fn all_scalar(fields: Map<Seq<char>, JsonValue>) -> bool {
    forall|k: Seq<char>| fields.dom().contains(k) ==> !(#[trigger] fields[k] is Other)
}

/// `serde_json::Map::new` makes an object without fields.
#[verifier::external_body]
pub(crate) fn new_object() -> (object: serde_json::Map<String, serde_json::Value>)
    ensures
        object_fields(object) == no_fields(),
{
    serde_json::Map::new()
}

/// `serde_json::Map::insert` sets a field, whether or not it was there, and leaves the
/// others as they are.
#[verifier::external_body]
pub(crate) fn insert_field(
    object: &mut serde_json::Map<String, serde_json::Value>,
    key: &str,
    field: JsonField,
)
    requires
        !(field is Other),
    ensures
        object_fields(*final(object)) == object_fields(*old(object)).insert(key@, field@),
{
    let value = match field {
        JsonField::Flag(b) => serde_json::Value::Bool(b),
        JsonField::Text(s) => serde_json::Value::String(s),
        JsonField::Count(n) => serde_json::Value::Number(n.into()),
        JsonField::Other => serde_json::Value::Null,
    };
    object.insert(key.to_string(), value);
}

/// `serde_json::Map::get` looks a field up: `None` exactly if there is none. A number is a
/// count if `Number::as_u64` takes it for one.
#[verifier::external_body]
pub(crate) fn get_field(object: &serde_json::Map<String, serde_json::Value>, key: &str) -> (r:
    Option<JsonField>)
    ensures
        match r {
            None => !object_fields(*object).dom().contains(key@),
            Some(f) => object_fields(*object).dom().contains(key@) && object_fields(*object)[key@]
                == f@,
        },
{
    object.get(key).map(
        |v|
            match v {
                serde_json::Value::Bool(b) => JsonField::Flag(*b),
                serde_json::Value::String(s) => JsonField::Text(s.clone()),
                serde_json::Value::Number(n) => n.as_u64().map_or(
                    JsonField::Other,
                    JsonField::Count,
                ),
                serde_json::Value::Null => JsonField::Other,
                serde_json::Value::Array(_) => JsonField::Other,
                serde_json::Value::Object(_) => JsonField::Other,
            },
    )
}

/// `serde_json::Value::to_string` gives the compact text of an object. For an object of
/// scalar fields the text depends on the fields alone, as the keys are kept in order, and
/// `serde_json::from_slice` gives the fields back from it.
#[verifier::external_body]
pub(crate) fn write_object(object: serde_json::Map<String, serde_json::Value>) -> (text: String)
    requires
        all_scalar(object_fields(object)),
    ensures
        text@ == object_text(object_fields(object)),
        parsed_object(encode_utf8(text@)) == Some(object_fields(object)),
{
    serde_json::Value::Object(object).to_string()
}

/// `serde_json::from_slice` reads a value, which depends on the bytes alone. `None` stands
/// for bytes that hold no value, or one that is no object.
#[verifier::external_body]
pub(crate) fn read_object(bytes: &[u8]) -> (r: Option<
    serde_json::Map<String, serde_json::Value>,
>)
    ensures
        match r {
            None => parsed_object(bytes@) is None,
            Some(object) => parsed_object(bytes@) == Some(object_fields(object)),
        },
{
    match serde_json::from_slice::<serde_json::Value>(bytes) {
        Ok(serde_json::Value::Object(object)) => Some(object),
        Ok(_) => None,
        Err(_) => None,
    }
}

} // verus!
