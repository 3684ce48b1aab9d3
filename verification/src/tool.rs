//! What a tool hands back to whoever called it.

use vstd::prelude::*;

verus! {

/// What a call of a tool gave.
#[derive(Debug, PartialEq, Eq, Clone)]
pub enum Payload {
    /// A text.
    Text(String),
    /// A list of texts.
    List(Vec<String>),
    /// A value, written as JSON.
    Json(String),
    /// The value could not be written.
    Unwritable(String),
}

/// The answer to a call of a tool.
#[derive(Debug, PartialEq, Eq, Clone)]
pub enum Reply {
    /// The call went well: under the key `result`.
    Result(Payload),
    /// The call failed: the message, under the key `error`.
    Error(String),
}

/// The message for the failure `error` of the action `action_identifier`.
pub open spec fn failure_text(action_identifier: Seq<char>, error: Seq<char>) -> Seq<char> {
    "Failed to "@ + action_identifier + ": "@ + error
}

/// The message for a value of the kind `data_identifier` that could not be written.
pub open spec fn unwritable_text(data_identifier: Seq<char>, error: Seq<char>) -> Seq<char> {
    "Failed to serialize "@ + data_identifier + ": "@ + error
}

/// The message for a tool that is not there.
pub open spec fn not_found_text(name: Seq<char>) -> Seq<char> {
    "Tool '"@ + name + "' not found"@
}

/// The message for parameters that cannot be read.
pub open spec fn parse_failure_text(error: Seq<char>) -> Seq<char> {
    "Failed to parse parameters: "@ + error
}

/// The message for a call that failed.
pub open spec fn call_failure_text(name: Seq<char>, error: Seq<char>) -> Seq<char> {
    "Failed to call tool '"@ + name + "': "@ + error
}

fn joined(a: &str, b: &str, c: &str, d: &str) -> (s: String)
    ensures
        s@ == a@ + b@ + c@ + d@,
{
    let mut s = a.to_owned();
    s.append(b);
    s.append(c);
    s.append(d);
    s
}

/// The answer for the failure `error` of the action `action_identifier`.
pub fn error_to_json(error: &str, action_identifier: &str) -> (r: Reply)
    ensures
        r is Error,
        r->Error_0@ == failure_text(action_identifier@, error@),
{
    Reply::Error(joined("Failed to ", action_identifier, ": ", error))
}

/// The answer for a text, or for the failure of the action.
pub fn string_result_to_json(result: Result<String, String>, action_identifier: &str) -> (r: Reply)
    ensures
        match result {
            Ok(value) => r == Reply::Result(Payload::Text(value)),
            Err(e) => r is Error && r->Error_0@ == failure_text(action_identifier@, e@),
        },
{
    match result {
        Ok(value) => Reply::Result(Payload::Text(value)),
        Err(e) => error_to_json(e.as_str(), action_identifier),
    }
}

/// The answer for a list of texts, or for the failure of the action.
pub fn string_vec_result_to_json(result: Result<Vec<String>, String>, action_identifier: &str) -> (r: Reply)
    ensures
        match result {
            Ok(values) => r == Reply::Result(Payload::List(values)),
            Err(e) => r is Error && r->Error_0@ == failure_text(action_identifier@, e@),
        },
{
    match result {
        Ok(values) => Reply::Result(Payload::List(values)),
        Err(e) => error_to_json(e.as_str(), action_identifier),
    }
}

/// The answer for a value of the kind `data_identifier`, which was
/// written as JSON or could not be written, or for the failure of the
/// action.
pub fn result_to_json(result: Result<Result<String, String>, String>, action_identifier: &str, data_identifier: &str) -> (r:
    Reply)
    ensures
        match result {
            Ok(Ok(json)) => r == Reply::Result(Payload::Json(json)),
            Ok(Err(e)) => r is Result && r->Result_0 is Unwritable && r->Result_0->Unwritable_0@ == unwritable_text(
                data_identifier@,
                e@,
            ),
            Err(e) => r is Error && r->Error_0@ == failure_text(action_identifier@, e@),
        },
{
    match result {
        Ok(Ok(json)) => Reply::Result(Payload::Json(json)),
        Ok(Err(e)) => Reply::Result(Payload::Unwritable(joined("Failed to serialize ", data_identifier, ": ", e.as_str()))),
        Err(e) => error_to_json(e.as_str(), action_identifier),
    }
}

/// How the call of a tool went.
#[derive(Debug, PartialEq, Eq, Clone)]
pub enum CallOutcome {
    /// There is no tool of that name.
    NotFound,
    /// The parameters are no JSON.
    BadParameters(String),
    /// The tool failed.
    Failed(String),
    /// The tool answered.
    Answered(Reply),
}

/// The answer to the call of the tool `name`: that of the tool, or the
/// reason why there is none.
pub fn call_tool(name: &str, outcome: CallOutcome) -> (r: Reply)
    ensures
        match outcome {
            CallOutcome::Answered(reply) => r == reply,
            CallOutcome::NotFound => r is Error && r->Error_0@ == call_failure_text(name@, not_found_text(name@)),
            CallOutcome::BadParameters(e) => r is Error && r->Error_0@ == call_failure_text(
                name@,
                parse_failure_text(e@),
            ),
            CallOutcome::Failed(e) => r is Error && r->Error_0@ == call_failure_text(name@, e@),
        },
{
    match outcome {
        CallOutcome::Answered(reply) => reply,
        CallOutcome::NotFound => {
            let inner = joined("Tool '", name, "' not found", "");
            proof {
                reveal_strlit("");
                assert(inner@ =~= not_found_text(name@));
            }
            Reply::Error(joined("Failed to call tool '", name, "': ", inner.as_str()))
        },
        CallOutcome::BadParameters(e) => {
            let inner = joined("Failed to parse parameters: ", e.as_str(), "", "");
            proof {
                reveal_strlit("");
                assert(inner@ =~= parse_failure_text(e@));
            }
            Reply::Error(joined("Failed to call tool '", name, "': ", inner.as_str()))
        },
        CallOutcome::Failed(e) => Reply::Error(joined("Failed to call tool '", name, "': ", e.as_str())),
    }
}

} // verus!
