//! What the run of a commit hook means for the commit.

use vstd::prelude::*;

verus! {

/// The message that a hook left.
#[derive(PartialEq, Eq, Debug, Clone)]
pub struct MessageData {
    pub message: String,
}

/// The output of a hook that failed.
#[derive(PartialEq, Eq, Debug, Clone)]
pub struct ErrorData {
    pub error: String,
}

/// Hook result indicating either success or failure.
#[derive(PartialEq, Eq, Debug, Clone)]
pub enum HookResult {
    Success,
    NotFound,
    Message(MessageData),
    Failure(ErrorData),
}

/// How the run of a hook ended.
#[derive(PartialEq, Eq, Debug, Clone)]
pub enum HookRun {
    /// The hook ran and agreed.
    Passed,
    /// There is no such hook.
    NoHookFound,
    /// The hook ran and refused.
    RunNotSuccessful { stdout: String, stderr: String },
}

/// What is shown of the output of a hook that refused.
pub open spec fn joined(stdout: Seq<char>, stderr: Seq<char>) -> Seq<char> {
    if stdout.len() == 0 && vstd::utf8::is_ascii_chars(stderr) {
        "hook produced no output"@
    } else if stdout.len() == 0 {
        stderr
    } else if stderr.len() == 0 {
        stdout
    } else {
        "stdout:\n"@ + stdout + "\n\n"@ + stderr
    }
}

/// Joins what a hook printed to its two outputs.
pub fn join_output(stdout: String, stderr: String) -> (r: String)
    ensures
        r@ == joined(stdout@, stderr@),
{
    if stdout.as_str().is_empty() && stderr.is_ascii() {
        return "hook produced no output".to_owned();
    } else if stdout.as_str().is_empty() {
        return stderr;
    } else if stderr.as_str().is_empty() {
        return stdout;
    }
    let mut r = "stdout:\n".to_owned();
    r.append(stdout.as_str());
    r.append("\n\n");
    r.append(stderr.as_str());
    r
}

/// The result of the hook that may rewrite the commit message, `text`
/// being the message after the run.
pub fn message(run: HookRun, text: String) -> (r: HookResult)
    ensures
        match run {
            HookRun::Passed => r == HookResult::Message(MessageData { message: text }),
            HookRun::NoHookFound => r == HookResult::NotFound,
            HookRun::RunNotSuccessful { stdout, stderr } => r is Failure && r->Failure_0.error@
                == joined(stdout@, stderr@),
        },
{
    match run {
        HookRun::Passed => HookResult::Message(MessageData { message: text }),
        HookRun::NoHookFound => HookResult::NotFound,
        HookRun::RunNotSuccessful { stdout, stderr } => {
            let error = join_output(stdout, stderr);
            HookResult::Failure(ErrorData { error })
        },
    }
}

/// The result of the hook that runs before a commit.
pub fn pre_commit(run: HookRun) -> (r: HookResult)
    ensures
        match run {
            HookRun::Passed => r == HookResult::Success,
            HookRun::NoHookFound => r == HookResult::NotFound,
            HookRun::RunNotSuccessful { stdout, stderr } => r is Failure && r->Failure_0.error@
                == joined(stdout@, stderr@),
        },
{
    match run {
        HookRun::Passed => HookResult::Success,
        HookRun::NoHookFound => HookResult::NotFound,
        HookRun::RunNotSuccessful { stdout, stderr } => {
            let error = join_output(stdout, stderr);
            HookResult::Failure(ErrorData { error })
        },
    }
}

/// The result of the hook that runs after a commit.
pub fn post_commit(run: HookRun) -> (r: HookResult)
    ensures
        match run {
            HookRun::Passed => r == HookResult::Success,
            HookRun::NoHookFound => r == HookResult::NotFound,
            HookRun::RunNotSuccessful { stdout, stderr } => r is Failure && r->Failure_0.error@
                == joined(stdout@, stderr@),
        },
{
    pre_commit(run)
}

} // verus!
