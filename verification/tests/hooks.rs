use stack_engine::hooks;
use stack_engine::hooks::{ErrorData, HookResult, HookRun, MessageData};

fn rejected() -> HookRun {
    HookRun::RunNotSuccessful { stdout: "rejected\n".to_owned(), stderr: String::new() }
}

#[test]
fn pre_commit_hook_success() {
    assert_eq!(hooks::pre_commit(HookRun::Passed), HookResult::Success);
}

#[test]
fn pre_commit_hook_not_found() {
    assert_eq!(hooks::pre_commit(HookRun::NoHookFound), HookResult::NotFound);
}

#[test]
fn pre_commit_hook_rejection() {
    assert_eq!(
        hooks::pre_commit(rejected()),
        HookResult::Failure(ErrorData { error: "rejected\n".to_owned() })
    );
}

#[test]
fn post_commit_hook_rejection() {
    assert_eq!(
        hooks::post_commit(rejected()),
        HookResult::Failure(ErrorData { error: "rejected\n".to_owned() })
    );
}

#[test]
fn message_hook_rejection() {
    let message = "commit message".to_owned();
    assert_eq!(
        hooks::message(rejected(), message),
        HookResult::Failure(ErrorData { error: "rejected\n".to_owned() })
    );
}

#[test]
fn rewrite_message() {
    let message = "rewritten message\n".to_owned();
    assert_eq!(
        hooks::message(HookRun::Passed, message),
        HookResult::Message(MessageData { message: "rewritten message\n".to_owned() })
    );
}

#[test]
fn hook_output_is_joined() {
    assert_eq!(hooks::join_output(String::new(), String::new()), "hook produced no output");
    assert_eq!(hooks::join_output(String::new(), "plain".to_owned()), "hook produced no output");
    assert_eq!(hooks::join_output(String::new(), "caf\u{e9}".to_owned()), "caf\u{e9}");
    assert_eq!(hooks::join_output("out".to_owned(), String::new()), "out");
    assert_eq!(hooks::join_output("out".to_owned(), "err".to_owned()), "stdout:\nout\n\nerr");
    assert_eq!(hooks::message(HookRun::NoHookFound, "m".to_owned()), HookResult::NotFound);
    assert_eq!(hooks::post_commit(HookRun::Passed), HookResult::Success);
}
