//! Reading JSON documents with `serde_json`.

use vstd::prelude::*;

verus! {

/// A JSON value of `serde_json`, carried as it is.
#[verifier::external_type_specification]
#[verifier::external_body]
pub struct ExValue(serde_json::Value);

/// An error of `serde_json`, carried as it is.
#[verifier::external_type_specification]
#[verifier::external_body]
pub struct ExError(serde_json::Error);

/// The document that `serde_json::from_str` reads from a text, `None` where it
/// reports an error.
pub uninterp spec fn json_of_text(text: Seq<char>) -> Option<serde_json::Value>;

/// What `serde_json::from_slice` gives for bytes: the document that it reads, or the
/// error that it reports.
pub uninterp spec fn json_of_bytes(bytes: Seq<u8>) -> Result<serde_json::Value, serde_json::Error>;

/// The members of a JSON object by name; a value of another kind has none.
pub uninterp spec fn json_members(value: serde_json::Value) -> Map<Seq<char>, serde_json::Value>;

/// The characters of a JSON string, `None` for a value of another kind.
pub uninterp spec fn json_string(value: serde_json::Value) -> Option<Seq<char>>;

/// `serde_json::from_str` with a `Value` as target. Nothing is claimed of what it
/// reads beyond the name: the same text always gives the same document, or
/// always an error.
#[verifier::external_body]
pub(crate) fn parse_text(text: &str) -> (document: Result<serde_json::Value, serde_json::Error>)
    ensures
        match document {
            Ok(value) => json_of_text(text@) == Some(value),
            Err(_) => json_of_text(text@) is None,
        },
{
    serde_json::from_str(text)
}

/// `serde_json::from_slice` with a `Value` as target. Nothing is claimed of what
/// it reads beyond the name: the same bytes always give the same document, or
/// always the same error.
#[verifier::external_body]
pub(crate) fn parse_bytes(bytes: &[u8]) -> (document: Result<serde_json::Value, serde_json::Error>)
    ensures
        document == json_of_bytes(bytes@),
{
    serde_json::from_slice(bytes)
}

/// `serde_json::Value::get` with a string as index: the member of that name where
/// the value is an object that has one, and otherwise nothing.
#[verifier::external_body]
pub(crate) fn member<'a>(value: &'a serde_json::Value, name: &str) -> (found: Option<
    &'a serde_json::Value,
>)
    ensures
        match found {
            Some(inner) => json_members(*value).contains_key(name@) && *inner == json_members(
                *value,
            )[name@],
            None => !json_members(*value).contains_key(name@),
        },
{
    value.get(name)
}

/// `serde_json::Value::as_str`: the characters of a string, and nothing for a
/// value of another kind.
pub assume_specification[ serde_json::Value::as_str ](value: &serde_json::Value) -> (text: Option<
    &str,
>)
    ensures
        match text {
            Some(inner) => json_string(*value) == Some(inner@),
            None => json_string(*value) is None,
        },
;

/// Cloning a `serde_json::Value` gives an equal value.
pub assume_specification[ <serde_json::Value as Clone>::clone ](
    value: &serde_json::Value,
) -> (copy: serde_json::Value)
    ensures
        copy == *value,
;

} // verus!
