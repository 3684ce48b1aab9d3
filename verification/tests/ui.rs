use stack_engine::diff::InputDiff;
use stack_engine::hunk::RangeFault;
use stack_engine::object_id::ObjectId;
use stack_engine::stack_id::StackId;
use stack_engine::ui::{ChangeHunks, DiffHunk, HunkDependencies, HunkLock};
use stack_engine::workspace::{CalculationError, InputCommit, InputFile, InputStack, WorkspaceHunkRanges};

fn id(digit: char) -> ObjectId {
    let hex: String = std::iter::repeat(digit).take(40).collect();
    ObjectId::from_hex(&hex).unwrap()
}

fn hunk(old_start: u32, old_lines: u32) -> DiffHunk {
    DiffHunk { old_start, old_lines, new_start: old_start, new_lines: old_lines + 1, diff: b"@@".to_vec() }
}

#[test]
fn hunks_are_locked_to_the_commits_whose_lines_they_replace() {
    let stack = StackId::from_u128(3);
    let file = |path: &str, diff: InputDiff| InputFile { path: path.into(), diffs: vec![diff] };
    let ranges = WorkspaceHunkRanges::new(vec![InputStack {
        stack_id: stack,
        commits: vec![
            InputCommit {
                commit_id: id('a'),
                files: vec![file("one", InputDiff { old_start: 10, old_lines: 0, new_start: 10, new_lines: 5 })],
            },
            InputCommit {
                commit_id: id('b'),
                files: vec![
                    file("one", InputDiff { old_start: 12, old_lines: 1, new_start: 12, new_lines: 1 }),
                    file("one", InputDiff { old_start: 1, old_lines: 0, new_start: 1, new_lines: 1 }),
                ],
            },
        ],
    }]);
    let changes = vec![
        ChangeHunks { path: "one".into(), hunks: vec![hunk(11, 2), hunk(40, 1), hunk(14, 1)] },
        ChangeHunks { path: "two".into(), hunks: vec![hunk(11, 2)] },
    ];
    let dependencies = HunkDependencies::try_from_workspace_ranges(ranges, changes);
    let lock = |commit: char| HunkLock { stack_id: stack, commit_id: id(commit) };
    assert_eq!(
        dependencies.diffs,
        vec![
            ("one".to_string(), hunk(11, 2), vec![lock('a'), lock('b')]),
            ("one".to_string(), hunk(14, 1), vec![lock('a')]),
        ]
    );
    assert_eq!(
        dependencies.errors,
        vec![CalculationError {
            path: "one".into(),
            stack_id: Some(stack),
            commit_id: Some(id('b')),
            fault: RangeFault::DuplicateCommit,
        }]
    );
}
