//! Reading single texts out of JSON documents, and writing texts as JSON
//! strings.

use vstd::prelude::*;

use crate::text::push_text;

verus! {

/// The text under `key` in the JSON object `text`: `None` if `text` is not
/// JSON, `Some(None)` if it has no such text.
pub uninterp spec fn field(text: Seq<char>, key: Seq<char>) -> Option<Option<Seq<char>>>;

/// The text under `inner` in the object under `outer`.
pub uninterp spec fn nested_field(text: Seq<char>, outer: Seq<char>, inner: Seq<char>) -> Option<
    Option<Seq<char>>,
>;

/// The text under `key` in the first object of the list under `list`.
pub uninterp spec fn listed_field(text: Seq<char>, list: Seq<char>, key: Seq<char>) -> Option<
    Option<Seq<char>>,
>;

/// The text under `inner` in the object under `outer` in the first object of
/// the list under `list`.
pub uninterp spec fn listed_nested_field(
    text: Seq<char>,
    list: Seq<char>,
    outer: Seq<char>,
    inner: Seq<char>,
) -> Option<Option<Seq<char>>>;

/// Why a text is not JSON; `None` if it is.
pub uninterp spec fn complaint(text: Seq<char>) -> Option<Seq<char>>;

/// A text as a JSON string, in quotes and with escapes.
pub uninterp spec fn quoted(text: Seq<char>) -> Seq<char>;

/// The characters of an optional text that was looked up.
pub open spec fn found_view(v: Option<Option<String>>) -> Option<Option<Seq<char>>> {
    match v {
        Some(Some(s)) => Some(Some(s@)),
        Some(None) => Some(None),
        None => None,
    }
}

/// Calls `serde_json::from_str`, `Value::get` and `Value::as_str`; the result
/// goes by the name [`field`].
#[verifier::external_body]
pub(crate) fn read_field(text: &str, key: &str) -> (res: Option<Option<String>>)
    ensures
        found_view(res) == field(text@, key@),
{
    let v: serde_json::Value = serde_json::from_str(text).ok()?;
    Some(v.get(key).and_then(|t| t.as_str()).map(str::to_string))
}

/// Calls `serde_json::from_str`, indexes the value by two keys and calls
/// `Value::as_str`; the result goes by the name [`nested_field`].
#[verifier::external_body]
pub(crate) fn read_nested_field(text: &str, outer: &str, inner: &str) -> (res: Option<
    Option<String>,
>)
    ensures
        found_view(res) == nested_field(text@, outer@, inner@),
{
    let v: serde_json::Value = serde_json::from_str(text).ok()?;
    Some(v[outer][inner].as_str().map(str::to_string))
}

/// Calls `serde_json::from_str`, indexes the value by a key, by zero and by a
/// key, and calls `Value::as_str`; the result goes by the name
/// [`listed_field`].
#[verifier::external_body]
pub(crate) fn read_listed_field(text: &str, list: &str, key: &str) -> (res: Option<Option<String>>)
    ensures
        found_view(res) == listed_field(text@, list@, key@),
{
    let v: serde_json::Value = serde_json::from_str(text).ok()?;
    Some(v[list][0][key].as_str().map(str::to_string))
}

/// Calls `serde_json::from_str`, indexes the value by a key, by zero and by two
/// keys, and calls `Value::as_str`; the result goes by the name
/// [`listed_nested_field`].
#[verifier::external_body]
pub(crate) fn read_listed_nested_field(text: &str, list: &str, outer: &str, inner: &str) -> (res:
    Option<Option<String>>)
    ensures
        found_view(res) == listed_nested_field(text@, list@, outer@, inner@),
{
    let v: serde_json::Value = serde_json::from_str(text).ok()?;
    Some(v[list][0][outer][inner].as_str().map(str::to_string))
}

/// Calls `serde_json::from_str` and writes out its error, which goes by the
/// name [`complaint`].
#[verifier::external_body]
pub(crate) fn read_complaint(text: &str) -> (res: Option<String>)
    ensures
        res is Some <==> complaint(text@) is Some,
        res matches Some(e) ==> complaint(text@) == Some(e@),
{
    serde_json::from_str::<serde_json::Value>(text).err().map(|e| e.to_string())
}

/// Writes `serde_json::Value::String` out, which goes by the name [`quoted`].
#[verifier::external_body]
pub(crate) fn quote(text: &str) -> (res: String)
    ensures
        res@ == quoted(text@),
{
    serde_json::Value::String(text.to_string()).to_string()
}

/// Appends a text as a JSON string.
pub(crate) fn push_quoted(out: &mut Vec<char>, text: &str)
    ensures
        final(out)@ == old(out)@ + quoted(text@),
{
    push_text(out, quote(text).as_str());
}

} // verus!
