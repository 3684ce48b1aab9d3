use stack_engine::dependencies::{compute_hunk_locks, HunkDependencyOptions, HunkLock, WorkdirFile, WorkdirHunk};
use stack_engine::diff::InputDiff;
use stack_engine::hunk::{HunkRange, RangeFault};
use stack_engine::object_id::ObjectId;
use stack_engine::stack::StackHunkRanges;
use stack_engine::stack_id::StackId;
use stack_engine::workspace::{
    combine_path_ranges, CalculationError, InputCommit, InputFile, InputStack, WorkspaceHunkRanges,
};

fn id(first: char) -> ObjectId {
    let mut hex = String::new();
    hex.push(first);
    while hex.len() < 40 {
        hex.push('0');
    }
    ObjectId::from_hex(&hex).unwrap()
}

fn new_stack_id() -> StackId {
    StackId::from_u128(uuid::Uuid::new_v4().as_u128())
}

#[test]
fn builder_simple() {
    let commit1_id = id('a');
    let stack1_id = new_stack_id();
    let path = String::from("/test.txt");
    let commit2_id = id('b');
    let stack2_id = new_stack_id();

    let deps = WorkspaceHunkRanges::new(vec![
        InputStack {
            stack_id: stack1_id,
            commits: vec![InputCommit {
                commit_id: commit1_id,
                files: vec![InputFile {
                    path: path.to_owned(),
                    diffs: vec![InputDiff::try_from(
                        "@@ -1,6 +1,7 @@
1
2
3
+4
5
6
7
",
                    )
                    .unwrap()],
                }],
            }],
        },
        InputStack {
            stack_id: stack2_id,
            commits: vec![InputCommit {
                commit_id: commit2_id,
                files: vec![InputFile {
                    path: path.to_owned(),
                    diffs: vec![InputDiff::try_from(
                        "@@ -1,5 +1,3 @@
-1
-2
3
5
6
",
                    )
                    .unwrap()],
                }],
            }],
        },
    ]);

    let lookup = deps.intersection(&path, 2, 1);
    assert_eq!(lookup.len(), 1);
    assert_eq!(lookup[0].commit_id, commit1_id);
}

#[test]
fn workspace_one_branch_owns_the_added_line() {
    let stack = StackId::from_u128(1);
    let path = String::from("file");
    let deps = WorkspaceHunkRanges::new(vec![InputStack {
        stack_id: stack,
        commits: vec![InputCommit {
            commit_id: id('a'),
            files: vec![InputFile {
                path: path.clone(),
                diffs: vec![InputDiff::try_from("@@ -1,6 +1,7 @@\n1\n2\n3\n+4\n5\n6\n7\n").unwrap()],
            }],
        }],
    }]);
    let found = deps.intersection(&path, 4, 1);
    assert_eq!(found.len(), 1);
    assert_eq!(found[0].commit_id, id('a'));
    assert!(deps.errors.is_empty());
}

#[test]
fn workspace_two_branches_on_distinct_paths() {
    let first = StackId::from_u128(1);
    let second = StackId::from_u128(2);
    let diff = InputDiff { old_start: 3, old_lines: 1, new_start: 3, new_lines: 2 };
    let deps = WorkspaceHunkRanges::new(vec![
        InputStack {
            stack_id: first,
            commits: vec![InputCommit {
                commit_id: id('a'),
                files: vec![InputFile { path: String::from("one"), diffs: vec![diff] }],
            }],
        },
        InputStack {
            stack_id: second,
            commits: vec![InputCommit {
                commit_id: id('b'),
                files: vec![InputFile { path: String::from("two"), diffs: vec![diff] }],
            }],
        },
    ]);
    let one = deps.intersection(&String::from("one"), 3, 1);
    assert_eq!(one, vec![HunkRange { stack_id: first, commit_id: id('a'), start: 3, lines: 2, line_shift: 1 }]);
    let two = deps.intersection(&String::from("two"), 4, 5);
    assert_eq!(two, vec![HunkRange { stack_id: second, commit_id: id('b'), start: 3, lines: 2, line_shift: 1 }]);
    assert!(deps.intersection(&String::from("three"), 1, 100).is_empty());
    assert_eq!(deps.paths.len(), 2);
}

#[test]
fn combine_moves_each_range_by_the_lines_added_before_it() {
    let first = StackId::from_u128(1);
    let second = StackId::from_u128(2);
    let path = String::from("file");
    let mut a = StackHunkRanges::new();
    a.add(first, id('a'), &path, vec![
        InputDiff { old_start: 2, old_lines: 0, new_start: 2, new_lines: 3 },
        InputDiff { old_start: 20, old_lines: 2, new_start: 23, new_lines: 1 },
    ]).unwrap();
    let mut b = StackHunkRanges::new();
    b.add(second, id('b'), &path, vec![InputDiff { old_start: 10, old_lines: 4, new_start: 10, new_lines: 0 }]).unwrap();
    let combined = combine_path_ranges(&path, &vec![a, b]).unwrap();
    let shape: Vec<(ObjectId, i32, i32, i32)> =
        combined.iter().map(|h| (h.commit_id, h.start, h.lines, h.line_shift)).collect();
    assert_eq!(shape, vec![(id('a'), 2, 3, 3), (id('b'), 13, 0, -4), (id('a'), 22, 1, -1)]);
}

#[test]
fn combine_takes_the_first_stack_on_equal_starts() {
    let first = StackId::from_u128(1);
    let second = StackId::from_u128(2);
    let path = String::from("file");
    let diff = InputDiff { old_start: 5, old_lines: 0, new_start: 5, new_lines: 1 };
    let mut a = StackHunkRanges::new();
    a.add(first, id('a'), &path, vec![diff]).unwrap();
    let mut b = StackHunkRanges::new();
    b.add(second, id('b'), &path, vec![diff]).unwrap();
    let combined = combine_path_ranges(&path, &vec![a, b]).unwrap();
    assert_eq!(combined.len(), 2);
    assert_eq!((combined[0].stack_id, combined[0].start), (first, 5));
    assert_eq!((combined[1].stack_id, combined[1].start), (second, 6));
}

#[test]
fn workspace_lists_faults_and_keeps_the_other_paths() {
    let stack = StackId::from_u128(1);
    let diff = InputDiff { old_start: 1, old_lines: 0, new_start: 1, new_lines: 2 };
    let file = |path: &str| InputFile { path: String::from(path), diffs: vec![diff] };
    let deps = WorkspaceHunkRanges::new(vec![InputStack {
        stack_id: stack,
        commits: vec![
            InputCommit { commit_id: id('a'), files: vec![file("good"), file("twice")] },
            InputCommit { commit_id: id('a'), files: vec![file("twice")] },
        ],
    }]);
    assert_eq!(
        deps.errors,
        vec![CalculationError {
            path: String::from("twice"),
            stack_id: Some(stack),
            commit_id: Some(id('a')),
            fault: RangeFault::DuplicateCommit,
        }]
    );
    assert_eq!(deps.intersection(&String::from("good"), 1, 1).len(), 1);
    assert_eq!(deps.intersection(&String::from("twice"), 1, 1).len(), 1);
}

#[test]
fn workspace_reports_a_path_that_cannot_be_combined() {
    let path = String::from("file");
    let deps = WorkspaceHunkRanges::new(vec![
        InputStack {
            stack_id: StackId::from_u128(1),
            commits: vec![InputCommit {
                commit_id: id('a'),
                files: vec![InputFile {
                    path: path.clone(),
                    diffs: vec![InputDiff { old_start: 1, old_lines: 0, new_start: 1, new_lines: 10 }],
                }],
            }],
        },
        InputStack {
            stack_id: StackId::from_u128(2),
            commits: vec![InputCommit {
                commit_id: id('b'),
                files: vec![InputFile {
                    path: path.clone(),
                    diffs: vec![InputDiff { old_start: 2147483640, old_lines: 1, new_start: 2147483640, new_lines: 1 }],
                }],
            }],
        },
    ]);
    assert!(deps.paths.is_empty());
    assert_eq!(
        deps.errors,
        vec![CalculationError { path, stack_id: None, commit_id: None, fault: RangeFault::OutOfRange }]
    );
}

#[test]
fn locks_are_entered_by_the_hash_of_the_hunk() {
    let stack = StackId::from_u128(9);
    let path = String::from("file");
    let workdir = vec![WorkdirFile {
        path: path.clone(),
        hunks: vec![
            WorkdirHunk { old_start: 4, old_lines: 1, hash: 11 },
            WorkdirHunk { old_start: 40, old_lines: 1, hash: 12 },
        ],
    }];
    let stacks = vec![InputStack {
        stack_id: stack,
        commits: vec![InputCommit {
            commit_id: id('a'),
            files: vec![InputFile {
                path,
                diffs: vec![InputDiff::try_from("@@ -1,6 +1,7 @@\n1\n2\n3\n+4\n5\n6\n7\n").unwrap()],
            }],
        }],
    }];
    let locks = compute_hunk_locks(HunkDependencyOptions { workdir: &workdir, stacks });
    assert_eq!(locks.len(), 1);
    assert_eq!(locks[&11], vec![HunkLock { branch_id: stack, commit_id: id('a') }]);
}
