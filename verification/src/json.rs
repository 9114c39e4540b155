use vstd::prelude::*;

verus! {

/// `serde_json::Value`, a JSON value. Nothing inside it is visible here:
/// what it holds is told by [`json_content`].
#[verifier::external_type_specification]
#[verifier::external_body]
pub struct ExValue(serde_json::Value);

/// What a JSON value holds. A number is kept without its digits.
pub enum JsonContent {
    Null,
    Bool(bool),
    Number,
    String(Seq<char>),
    Array(Seq<JsonContent>),
    Object(Map<Seq<char>, JsonContent>),
}

/// What `value` holds: its variant, and for an array its elements in
/// order, for an object its members by key, for a string its text, for a
/// boolean its truth value.
pub uninterp spec fn json_content(value: serde_json::Value) -> JsonContent;

/// `serde_json::Value::get` with a position: the element at `index` where
/// `value` is an array that has one, and `None` for any other value.
#[verifier::external_body]
pub(crate) fn element<'a>(value: &'a serde_json::Value, index: usize) -> (found: Option<
    &'a serde_json::Value,
>)
    ensures
        match found {
            Some(item) => json_content(*value) matches JsonContent::Array(items) && index
                < items.len() && items[index as int] == json_content(*item),
            None => !(json_content(*value) matches JsonContent::Array(items) && index
                < items.len()),
        },
{
    value.get(index)
}

/// `serde_json::Value::get` with a key: the member under `key` where
/// `value` is an object that has one, and `None` for any other value.
#[verifier::external_body]
pub(crate) fn member<'a>(value: &'a serde_json::Value, key: &str) -> (found: Option<
    &'a serde_json::Value,
>)
    ensures
        match found {
            Some(item) => json_content(*value) matches JsonContent::Object(members)
                && members.contains_key(key@) && members[key@] == json_content(*item),
            None => !(json_content(*value) matches JsonContent::Object(members)
                && members.contains_key(key@)),
        },
{
    value.get(key)
}

/// `serde_json::Value::as_bool`: the boolean where `value` is one, and
/// `None` for any other value.
#[verifier::external_body]
pub(crate) fn boolean(value: &serde_json::Value) -> (found: Option<bool>)
    ensures
        match found {
            Some(b) => json_content(*value) == JsonContent::Bool(b),
            None => !(json_content(*value) is Bool),
        },
{
    value.as_bool()
}

} // verus!
