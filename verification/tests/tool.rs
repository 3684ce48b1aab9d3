use stack_engine::tool::{
    call_tool, error_to_json, result_to_json, string_result_to_json, string_vec_result_to_json, CallOutcome, Payload,
    Reply,
};

#[test]
fn failures_name_the_action() {
    assert_eq!(error_to_json("no such branch", "rename"), Reply::Error("Failed to rename: no such branch".into()));
    assert_eq!(
        string_result_to_json(Err("boom".into()), "commit"),
        Reply::Error("Failed to commit: boom".into())
    );
    assert_eq!(string_result_to_json(Ok("done".into()), "commit"), Reply::Result(Payload::Text("done".into())));
    assert_eq!(
        string_vec_result_to_json(Ok(vec!["a".into(), "b".into()]), "list"),
        Reply::Result(Payload::List(vec!["a".into(), "b".into()]))
    );
    assert_eq!(string_vec_result_to_json(Err("x".into()), "list"), Reply::Error("Failed to list: x".into()));
}

#[test]
fn values_are_handed_on_as_they_were_written() {
    assert_eq!(
        result_to_json(Ok(Ok("{\"id\":1}".into())), "create", "StackEntry"),
        Reply::Result(Payload::Json("{\"id\":1}".into()))
    );
    assert_eq!(
        result_to_json(Ok(Err("key must be a string".into())), "create", "StackEntry"),
        Reply::Result(Payload::Unwritable("Failed to serialize StackEntry: key must be a string".into()))
    );
    assert_eq!(
        result_to_json(Err("denied".into()), "create", "StackEntry"),
        Reply::Error("Failed to create: denied".into())
    );
}

#[test]
fn calls_that_fail_name_the_tool() {
    assert_eq!(
        call_tool("commit", CallOutcome::NotFound),
        Reply::Error("Failed to call tool 'commit': Tool 'commit' not found".into())
    );
    assert_eq!(
        call_tool("commit", CallOutcome::BadParameters("expected value at line 1 column 1".into())),
        Reply::Error(
            "Failed to call tool 'commit': Failed to parse parameters: expected value at line 1 column 1".into()
        )
    );
    assert_eq!(
        call_tool("commit", CallOutcome::Failed("nothing to commit".into())),
        Reply::Error("Failed to call tool 'commit': nothing to commit".into())
    );
    let answer = Reply::Result(Payload::Text("ok".into()));
    assert_eq!(call_tool("commit", CallOutcome::Answered(answer.clone())), answer);
}
