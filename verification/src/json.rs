//! Reading one string out of a JSON document, through `serde_json`.

use vstd::prelude::*;

verus! {

/// The string found by `serde_json` at JSON Pointer `pointer` (RFC 6901)
/// in the document `doc`: `None` when `doc` is not valid JSON, when nothing
/// is at `pointer`, or when what is there is not a string.
pub uninterp spec fn json_string_at(doc: Seq<char>, pointer: Seq<char>) -> Option<Seq<char>>;

/// Parses `doc` with `serde_json::from_str` into a `serde_json::Value` and
/// looks up `pointer` with `Value::pointer`, then `Value::as_str`.
/// Trusted: the result is what [`json_string_at`] names for these
/// arguments; nothing more is claimed of JSON parsing.
#[verifier::external_body]
pub(crate) fn lookup_json_string(doc: &str, pointer: &str) -> (r: Option<String>)
    ensures
        match r {
            Some(s) => json_string_at(doc@, pointer@) == Some(s@),
            None => json_string_at(doc@, pointer@) is None,
        },
{
    let value: serde_json::Value = serde_json::from_str(doc).ok()?;
    value.pointer(pointer)?.as_str().map(|s| s.to_string())
}

/// The string that `serde_json` finds at `choices[0].delta.content` in the
/// document `doc`, by indexing: `None` when `doc` is not valid JSON, when
/// `choices` is not an array with a first element, when a step finds no
/// object key, or when what is there is not a string.
pub uninterp spec fn json_delta_content(doc: Seq<char>) -> Option<Seq<char>>;

/// Parses `doc` with `serde_json::from_str` into a `serde_json::Value`,
/// indexes it with `["choices"][0]["delta"]["content"]` (`Index` for `str`
/// and `usize`, which gives `Null` where a step does not apply) and takes
/// `Value::as_str`. Trusted: the result is what [`json_delta_content`]
/// names for `doc`.
#[verifier::external_body]
pub(crate) fn lookup_delta_content(doc: &str) -> (r: Option<String>)
    ensures
        match r {
            Some(s) => json_delta_content(doc@) == Some(s@),
            None => json_delta_content(doc@) is None,
        },
{
    let value: serde_json::Value = serde_json::from_str(doc).ok()?;
    value["choices"][0]["delta"]["content"].as_str().map(|s| s.to_string())
}

} // verus!
