//! Trusted boundary to serde_json: parsing the configuration blob into a
//! JSON value and reading its shape.  Each function here wraps exactly one
//! serde_json call; the shape checks themselves (which member, which element
//! type) stand in verified code.
//!
//! What the configuration logic reads of a document is deterministic in the
//! input, so it is given names: `spec_config_tags` for the raw tag strings a
//! byte blob decodes to (None when the blob does not conform), and, on the
//! opaque `serde_json::Value`, the projections `spec_doc_tags`,
//! `spec_string_items` and `spec_json_string` that the wrappers relate step
//! by step.

use vstd::prelude::*;

verus! {

/// serde_json's dynamically typed JSON value, opaque to verification.
#[verifier::external_type_specification]
#[verifier::external_body]
pub struct ExValue(serde_json::Value);

/// The raw tag strings a configuration blob decodes to: Some exactly when
/// the bytes are one JSON document carrying a `tags` member that is an
/// array of strings; None on any other shape.
pub uninterp spec fn spec_config_tags(data: Seq<u8>) -> Option<Seq<Seq<char>>>;

/// The raw tag strings of a parsed document: Some exactly when the document
/// is an object whose `tags` member is an array of strings.
pub uninterp spec fn spec_doc_tags(doc: serde_json::Value) -> Option<Seq<Seq<char>>>;

/// The strings of a `tags` member: Some exactly when the member is an array
/// of strings.
pub uninterp spec fn spec_string_items(member: serde_json::Value) -> Option<Seq<Seq<char>>>;

/// The characters of an array element: Some exactly when the element is a
/// JSON string.
pub uninterp spec fn spec_json_string(element: serde_json::Value) -> Option<Seq<char>>;

/// The strings of a list of array elements: Some exactly when every element
/// is a JSON string, and then the elements' characters in order.
pub open spec fn spec_strings_of(items: Seq<serde_json::Value>) -> Option<Seq<Seq<char>>>
    decreases items.len(),
{
    if items.len() == 0 {
        Some(Seq::empty())
    } else {
        match spec_json_string(items[0]) {
            Some(first) => match spec_strings_of(items.drop_first()) {
                Some(rest) => Some(seq![first] + rest),
                None => None,
            },
            None => None,
        }
    }
}

/// Already-decoded strings prefixed onto the still-undecided remainder of
/// an element list.
pub open spec fn spec_prepend(
    prefix: Seq<Seq<char>>,
    rest: Option<Seq<Seq<char>>>,
) -> Option<Seq<Seq<char>>> {
    match rest {
        Some(strings) => Some(prefix + strings),
        None => None,
    }
}

/// Relies on serde_json::from_slice::<serde_json::Value>: parses the bytes
/// as one complete JSON document; None on any syntax error.  Parsing is a
/// function of the bytes alone, so the document a success carries has as
/// its tag strings exactly what the bytes decode to.
#[verifier::external_body]
pub(crate) fn json_from_slice(data: &[u8]) -> (result: Option<serde_json::Value>)
    ensures
        result matches Some(doc) ==> spec_doc_tags(doc) == spec_config_tags(data@),
        result is None ==> spec_config_tags(data@) is None,
{
    match serde_json::from_slice::<serde_json::Value>(data) {
        Ok(value) => Some(value),
        Err(_) => None,
    }
}

/// Relies on serde_json::Value::get: the value of the named object member;
/// None when the value is not an object or has no member of that name.  For
/// the `tags` member, the document's tag strings are the member's strings,
/// and a document without such a member has none.
#[verifier::external_body]
pub(crate) fn json_get<'a>(value: &'a serde_json::Value, key: &str) -> (result: Option<
    &'a serde_json::Value,
>)
    ensures
        key@ == "tags"@ ==> (result matches Some(member) ==> spec_doc_tags(*value)
            == spec_string_items(*member)),
        key@ == "tags"@ && result is None ==> spec_doc_tags(*value) is None,
{
    value.get(key)
}

/// Relies on serde_json::Value::as_array: the elements when the value is a
/// JSON array; None otherwise.  An array member's strings are its elements'
/// strings; a member that is not an array has none.
#[verifier::external_body]
pub(crate) fn json_as_array<'a>(value: &'a serde_json::Value) -> (result: Option<
    &'a Vec<serde_json::Value>,
>)
    ensures
        result matches Some(elements) ==> spec_string_items(*value) == spec_strings_of(elements@),
        result is None ==> spec_string_items(*value) is None,
{
    value.as_array()
}

/// Relies on serde_json::Value::as_str: the characters when the value is a
/// JSON string; None otherwise.
#[verifier::external_body]
pub(crate) fn json_as_str<'a>(value: &'a serde_json::Value) -> (result: Option<&'a str>)
    ensures
        result matches Some(tag) ==> spec_json_string(*value) == Some(tag@),
        result is None ==> spec_json_string(*value) is None,
{
    value.as_str()
}

} // verus!
