//! What the coding harness reports as it works.
use vstd::prelude::*;
use serde_json::Value;

verus! {

/// `serde_json::Value`, a JSON value: made by `json_of`, carried through as it
/// is, and read only by `member`.
#[verifier::external_type_specification]
#[verifier::external_body]
pub struct ExValue(Value);

/// The members of a JSON object that are strings, by their keys. Anything but
/// an object has none.
pub uninterp spec fn text_members(value: Value) -> Map<Seq<char>, Seq<char>>;

/// `serde_json::Value::get` with a key, and what it returns as text: the member
/// with that key, when the value is an object that has one and it is a string.
#[verifier::external_body]
pub(crate) fn member(value: &Value, key: &str) -> (r: Option<String>)
    ensures
        match r {
            Some(text) => text_members(*value).contains_key(key@) && text_members(*value)[key@]
                == text@,
            None => !text_members(*value).contains_key(key@),
        },
{
    value.get(key).and_then(Value::as_str).map(str::to_owned)
}

/// The string members of the JSON value that a line is, or nothing where it is
/// no JSON.
pub uninterp spec fn json_members(line: Seq<char>) -> Option<Map<Seq<char>, Seq<char>>>;

/// `serde_json::from_str` into a `serde_json::Value`: the JSON value that a line
/// is, if it is one. Which lines are JSON, and with which string members, is
/// fixed by the line alone.
#[verifier::external_body]
pub(crate) fn json_of(line: &str) -> (r: Option<Value>)
    ensures
        match r {
            Some(value) => json_members(line@) == Some(text_members(value)),
            None => json_members(line@) is None,
        },
{
    serde_json::from_str::<Value>(line).ok()
}

/// Something the harness reported.
pub enum HarnessEvent {
    /// A line of its raw output.
    Output(String),
    /// The conversation it is holding.
    Session(String),
    TextStarted,
    TextDelta(String),
    ToolStarted { id: String, name: String },
    /// A tool call's input, shown on one line.
    ToolInput { id: String, summary: String },
    ToolFinished { id: String, is_error: bool },
    /// A tool call with its whole input.
    ToolCalled { id: String, name: String, input: Value, subagent: bool },
    ToolOutput { id: String, output: String, subagent: bool },
    Finished { is_error: bool, result: String },
    Failed(String),
}

} // verus!
