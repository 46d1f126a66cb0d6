//! The JSON lookups that the chat-completions protocol needs. `serde_json`
//! parses and indexes; the path that the protocol reads is chosen here.

use vstd::prelude::*;

verus! {

/// What `serde_json` finds in the text `body` at `json[key0][index][key1][key2]`
/// (indexing as `Value`'s `Index` impls do): `None` where `body` is not a
/// JSON document, `Some(None)` where that path does not lead to a JSON
/// string, `Some(Some(s))` where it leads to the string `s`.
pub uninterp spec fn json_str_at(
    body: Seq<char>,
    key0: Seq<char>,
    index: usize,
    key1: Seq<char>,
    key2: Seq<char>,
) -> Option<Option<Seq<char>>>;

/// The view of a nested optional string.
pub open spec fn nested_view(o: Option<Option<String>>) -> Option<Option<Seq<char>>> {
    match o {
        Some(Some(s)) => Some(Some(s@)),
        Some(None) => Some(None),
        None => None,
    }
}

/// Parses `body` with `serde_json::from_str::<Value>` and reads
/// `json[key0][index][key1][key2].as_str()`. `Value`'s `Index` impls give
/// `Null` for a missing key or index, or where the value is not an object or
/// array, and never panic. The contract names the outcome as `json_str_at`;
/// JSON syntax is not restated here.
#[verifier::external_body]
pub(crate) fn lookup_json_str(
    body: &str,
    key0: &str,
    index: usize,
    key1: &str,
    key2: &str,
) -> (res: Option<Option<String>>)
    ensures
        nested_view(res) == json_str_at(body@, key0@, index, key1@, key2@),
{
    match serde_json::from_str::<serde_json::Value>(body) {
        Ok(json) => match json[key0][index][key1][key2].as_str() {
            Some(s) => Some(Some(s.to_string())),
            None => Some(None),
        },
        Err(_) => None,
    }
}

/// The string at `choices[0][field]["content"]` of a chat-completions body:
/// `field` is `message` in a complete response and `delta` in a stream.
pub open spec fn choice_content(body: Seq<char>, field: Seq<char>) -> Option<Option<Seq<char>>> {
    json_str_at(body, "choices"@, 0, field, "content"@)
}

/// Looks up `choices[0][field]["content"]` in `body`.
pub fn lookup_choice_content(body: &str, field: &str) -> (res: Option<Option<String>>)
    ensures
        nested_view(res) == choice_content(body@, field@),
{
    lookup_json_str(body, "choices", 0, field, "content")
}

} // verus!
