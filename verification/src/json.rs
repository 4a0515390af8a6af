//! Trusted declarations for the JSON reading this library delegates to
//! the `serde_json` crate, together with a ghost model of a parsed value.
//!
//! Parsing, member lookup and the boolean/text readers are functions of
//! their arguments alone, so their outcomes are named: `parsed_model`
//! names what `from_slice` makes of given bytes, and `json_model` names
//! the JSON tree a `serde_json::Value` holds. The wrappers' contracts
//! state, over those names, exactly what the crate's source shows, and
//! the verified reducer's contracts speak of the same names.

use vstd::prelude::*;

verus! {

#[verifier::external_type_specification]
#[verifier::external_body]
pub struct ExValue(serde_json::Value);

#[verifier::external_type_specification]
#[verifier::external_body]
pub struct ExJsonError(serde_json::Error);

/// The ghost shape of a JSON document: the six JSON kinds, with object
/// members keyed by their exact member names. Numbers carry no payload
/// here; nothing in this library reads one.
pub enum JsonModel {
    Null,
    Bool(bool),
    Number,
    Text(Seq<char>),
    Array(Seq<JsonModel>),
    Object(Map<Seq<char>, JsonModel>),
}

/// The member of a JSON object under `key`: `None` when the value is no
/// object or its object lacks the key.
pub open spec fn model_member(m: JsonModel, key: Seq<char>) -> Option<JsonModel> {
    match m {
        JsonModel::Object(members) => if members.contains_key(key) {
            Some(members[key])
        } else {
            None
        },
        _ => None,
    }
}

/// The JSON tree a parsed `serde_json::Value` holds.
pub uninterp spec fn json_model(v: serde_json::Value) -> JsonModel;

/// What `serde_json::from_slice::<Value>` makes of given bytes: the
/// parsed document, or `None` when the bytes are not one valid JSON
/// document. Parsing depends on the bytes alone.
pub uninterp spec fn parsed_model(bytes: Seq<u8>) -> Option<JsonModel>;

/// Relies on `serde_json::from_slice::<Value>`: parses one JSON document
/// from raw bytes — the document `parsed_model` names — or reports a
/// syntax error exactly when that name is `None`.
#[verifier::external_body]
pub(crate) fn json_parse(bytes: &[u8]) -> (r: Result<serde_json::Value, serde_json::Error>)
    ensures
        match r {
            Ok(v) => parsed_model(bytes@) == Some(json_model(v)),
            Err(_) => parsed_model(bytes@) is None,
        },
{
    serde_json::from_slice(bytes)
}

/// Relies on `serde_json::Value::get` with a string key: the member of a
/// JSON object under `key`, or `None` when the value is no object or
/// lacks the key.
#[verifier::external_body]
pub(crate) fn json_get<'a>(v: &'a serde_json::Value, key: &str) -> (r: Option<
    &'a serde_json::Value,
>)
    ensures
        match r {
            Some(w) => model_member(json_model(*v), key@) == Some(json_model(*w)),
            None => model_member(json_model(*v), key@) is None,
        },
{
    v.get(key)
}

/// Relies on `serde_json::Value::as_bool`: the boolean a JSON `true` or
/// `false` holds, `None` for every other value.
#[verifier::external_body]
pub(crate) fn json_as_bool(v: &serde_json::Value) -> (r: Option<bool>)
    ensures
        r == (match json_model(*v) {
            JsonModel::Bool(b) => Some(b),
            _ => None,
        }),
{
    v.as_bool()
}

/// Relies on `serde_json::Value::as_str`: the text a JSON string holds,
/// `None` for every other value.
#[verifier::external_body]
pub(crate) fn json_as_str(v: &serde_json::Value) -> (r: Option<String>)
    ensures
        match r {
            Some(s) => json_model(*v) matches JsonModel::Text(t) && s@ == t,
            None => !(json_model(*v) is Text),
        },
{
    match v.as_str() {
        Some(s) => Some(s.to_owned()),
        None => None,
    }
}

} // verus!
