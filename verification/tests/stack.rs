use stack_engine::diff::InputDiff;
use stack_engine::hunk::{HunkRange, RangeFault};
use stack_engine::object_id::ObjectId;
use stack_engine::path::PathHunkRanges;
use stack_engine::stack::StackHunkRanges;
use stack_engine::stack_id::StackId;

fn commit(first: char) -> ObjectId {
    let mut hex = String::new();
    hex.push(first);
    while hex.len() < 40 {
        hex.push('0');
    }
    ObjectId::from_hex(&hex).unwrap()
}

fn stack_id() -> StackId {
    StackId::from_u128(uuid::Uuid::new_v4().as_u128())
}

#[test]
fn stack_simple() {
    let diff = InputDiff::try_from(
        "@@ -1,6 +1,7 @@
1
2
3
+4
5
6
7
",
    )
    .unwrap();
    let deps_stack = &mut StackHunkRanges::default();
    let stack_id = stack_id();
    let path = String::from("/test.txt");
    let commit_id = commit('a');

    deps_stack.add(stack_id, commit_id, &path, vec![diff]).unwrap();

    let overlapping_commits = deps_stack.intersection(&path, 4, 1);
    assert_eq!(overlapping_commits.len(), 1);
}

#[test]
fn stack_complex() {
    let diff_1 = InputDiff::try_from(
        "@@ -1,6 +1,7 @@
1
2
3
+4
5
6
7
",
    )
    .unwrap();
    let diff_2 = InputDiff::try_from(
        "@@ -2,6 +2,7 @@
2
3
4
+4.5
5
6
7
",
    )
    .unwrap();

    let deps_stack = &mut StackHunkRanges::default();
    let stack_id = stack_id();

    let path = String::from("/test.txt");
    let commit_id = commit('a');
    deps_stack.add(stack_id, commit_id, &path, vec![diff_1]).unwrap();

    let commit_id = commit('b');
    deps_stack.add(stack_id, commit_id, &path, vec![diff_2]).unwrap();

    let overlapping_commits = deps_stack.intersection(&path, 4, 1);
    assert_eq!(overlapping_commits.len(), 1);

    let overlapping_commits = deps_stack.intersection(&path, 5, 1);
    assert_eq!(overlapping_commits.len(), 1);

    let overlapping_commits = deps_stack.intersection(&path, 4, 2);
    assert_eq!(overlapping_commits.len(), 2);
}

#[test]
fn stack_basic_line_shift() {
    let diff_1 = InputDiff::try_from(
        "@@ -1,4 +1,5 @@
a
+b
a
a
a
",
    )
    .unwrap();
    let diff_2 = InputDiff::try_from(
        "@@ -1,3 +1,4 @@
+c
a
b
a
",
    )
    .unwrap();

    let deps_stack = &mut StackHunkRanges::default();
    let stack_id = stack_id();

    let path = String::from("/test.txt");
    let commit_id = commit('a');
    deps_stack.add(stack_id, commit_id, &path, vec![diff_1]).unwrap();

    let commit_id = commit('b');
    deps_stack.add(stack_id, commit_id, &path, vec![diff_2]).unwrap();

    let overlaps = deps_stack.intersection(&path, 1, 1);
    assert_eq!(overlaps.len(), 1);
    assert_eq!(overlaps[0].commit_id, commit_id);
}

#[test]
fn stack_complex_line_shift() {
    let deps_stack = &mut StackHunkRanges::default();
    let stack_id = stack_id();
    let path = String::from("/test.txt");

    let commit1_id = commit('a');
    let diff1 = InputDiff::try_from(
        "@@ -1,4 +1,5 @@
a
+b
a
a
a
",
    )
    .unwrap();
    deps_stack.add(stack_id, commit1_id, &path, vec![diff1]).unwrap();

    let commit2_id = commit('b');
    let diff2 = InputDiff::try_from(
        "@@ -1,3 +1,4 @@
+c
a
b
a
",
    )
    .unwrap();

    deps_stack.add(stack_id, commit2_id, &path, vec![diff2]).unwrap();

    let result = deps_stack.intersection(&path, 1, 1);
    assert_eq!(result.len(), 1);
    assert_eq!(result[0].commit_id, commit2_id);

    let result = deps_stack.intersection(&path, 2, 1);
    assert_eq!(result.len(), 0);

    let result = deps_stack.intersection(&path, 3, 1);
    assert_eq!(result.len(), 1);
    assert_eq!(result[0].commit_id, commit1_id);
}

#[test]
fn stack_multiple_overwrites() {
    let deps_stack = &mut StackHunkRanges::default();
    let stack_id = stack_id();
    let path = String::from("/test.txt");

    let commit1_id = commit('a');
    let diff_1 = InputDiff::try_from(
        "@@ -1,0 +1,7 @@
+a
+a
+a
+a
+a
+a
+a
",
    )
    .unwrap();
    deps_stack.add(stack_id, commit1_id, &path, vec![diff_1]).unwrap();

    let commit2_id = commit('b');
    let diff2 = InputDiff::try_from(
        "@@ -1,5 +1,5 @@
a
-a
+b
a
a
a
",
    )
    .unwrap();
    deps_stack.add(stack_id, commit2_id, &path, vec![diff2]).unwrap();

    let commit3_id = commit('c');
    let diff3 = InputDiff::try_from(
        "@@ -1,7 +1,7 @@
a
b
a
-a
+b
a
a
a
",
    )
    .unwrap();
    deps_stack.add(stack_id, commit3_id, &path, vec![diff3]).unwrap();

    let commit4_id = commit('d');
    let diff4 = InputDiff::try_from(
        "@@ -3,5 +3,5 @@
a
b
a
-a
+b
a
",
    )
    .unwrap();
    deps_stack.add(stack_id, commit4_id, &path, vec![diff4]).unwrap();

    let result = deps_stack.intersection(&path, 1, 1);
    assert_eq!(result.len(), 1);
    assert_eq!(result[0].commit_id, commit1_id);

    let result = deps_stack.intersection(&path, 2, 1);
    assert_eq!(result.len(), 1);
    assert_eq!(result[0].commit_id, commit2_id);

    let result = deps_stack.intersection(&path, 4, 1);
    assert_eq!(result.len(), 1);
    assert_eq!(result[0].commit_id, commit3_id);

    let result = deps_stack.intersection(&path, 6, 1);
    assert_eq!(result.len(), 1);
    assert_eq!(result[0].commit_id, commit4_id);
}

#[test]
fn stack_detect_deletion() {
    let deps_stack = &mut StackHunkRanges::default();
    let stack_id = stack_id();
    let path = String::from("/test.txt");

    let commit1_id = commit('a');
    let diff_1 = InputDiff::try_from(
        "@@ -1,7 +1,6 @@
a
a
a
-a
a
a
a
",
    )
    .unwrap();
    deps_stack.add(stack_id, commit1_id, &path, vec![diff_1]).unwrap();

    let result = deps_stack.intersection(&path, 3, 2);
    assert_eq!(result.len(), 1);
    assert_eq!(result[0].commit_id, commit1_id);
}

#[test]
fn stack_rejects_a_commit_twice_on_one_path() {
    let mut stack = StackHunkRanges::new();
    let id = StackId::from_u128(7);
    let path = String::from("a.txt");
    let diff = InputDiff { old_start: 1, old_lines: 0, new_start: 1, new_lines: 2 };
    assert_eq!(stack.add(id, commit('a'), &path, vec![diff]), Ok(()));
    let before = stack.clone();
    assert_eq!(stack.add(id, commit('a'), &path, vec![diff]), Err(RangeFault::DuplicateCommit));
    assert_eq!(stack, before);
    assert_eq!(stack.add(id, commit('a'), &String::from("b.txt"), vec![diff]), Ok(()));
    assert_eq!(stack.unique_paths(), vec![String::from("a.txt"), String::from("b.txt")]);
}

#[test]
fn stack_reports_line_numbers_out_of_range() {
    let mut stack = StackHunkRanges::new();
    let id = StackId::from_u128(7);
    let path = String::from("a.txt");
    let first = InputDiff { old_start: 2147483000, old_lines: 1, new_start: 2147483000, new_lines: 1 };
    assert_eq!(stack.add(id, commit('a'), &path, vec![first]), Ok(()));
    let before = stack.clone();
    let grow = InputDiff { old_start: 1, old_lines: 0, new_start: 1, new_lines: 1000 };
    assert_eq!(stack.add(id, commit('b'), &path, vec![grow]), Err(RangeFault::OutOfRange));
    assert_eq!(stack, before);
}

#[test]
fn table_splits_the_range_that_holds_a_diff() {
    let id = StackId::from_u128(1);
    let mut table = PathHunkRanges::new();
    table.add(id, commit('a'), vec![InputDiff { old_start: 1, old_lines: 0, new_start: 1, new_lines: 7 }]).unwrap();
    table.add(id, commit('b'), vec![InputDiff { old_start: 2, old_lines: 1, new_start: 2, new_lines: 1 }]).unwrap();
    let range = |c: char, start: i32, lines: i32, line_shift: i32| HunkRange {
        stack_id: id,
        commit_id: commit(c),
        start,
        lines,
        line_shift,
    };
    assert_eq!(table.hunks, vec![range('a', 1, 1, 0), range('b', 2, 1, 0), range('a', 3, 5, 7)]);
    assert!(table.has_commit(&commit('a')));
    assert!(table.has_commit(&commit('b')));
    assert!(!table.has_commit(&commit('c')));
    let found = table.find(2, 2);
    assert_eq!(found, vec![range('b', 2, 1, 0), range('a', 3, 5, 7)]);
}

#[test]
fn table_keeps_both_where_a_diff_begins_with_a_range() {
    let id = StackId::from_u128(1);
    let mut table = PathHunkRanges::new();
    table.add(id, commit('a'), vec![InputDiff { old_start: 5, old_lines: 0, new_start: 5, new_lines: 3 }]).unwrap();
    table.add(id, commit('b'), vec![InputDiff { old_start: 5, old_lines: 1, new_start: 5, new_lines: 1 }]).unwrap();
    let starts: Vec<(i32, i32)> = table.hunks.iter().map(|h| (h.start, h.lines)).collect();
    assert_eq!(starts, vec![(5, 3), (5, 1)]);
    assert_eq!(table.hunks[0].commit_id, commit('a'));
    assert_eq!(table.hunks[1].commit_id, commit('b'));
}

#[test]
fn range_contains_past_its_first_line_up_to_its_end() {
    let range = HunkRange { stack_id: StackId::from_u128(1), commit_id: commit('a'), start: 5, lines: 3, line_shift: 0 };
    assert_eq!(range.end(), 7);
    assert!(!range.contains(5, 1));
    assert!(range.contains(6, 1));
    assert!(range.contains(6, 2));
    assert!(range.contains(7, 1));
    assert!(!range.contains(7, 2));
    assert!(range.contains(8, 0));
    assert!(range.intersects(7, 1));
    assert!(!range.intersects(8, 1));
    assert!(range.intersects(1, 5));
    assert!(!range.intersects(1, 4));
}

#[test]
fn rewriting_lines_in_place_keeps_the_table_in_order() {
    let id = StackId::from_u128(1);
    let mut table = PathHunkRanges::new();
    table.add(id, commit('a'), vec![InputDiff { old_start: 1, old_lines: 0, new_start: 1, new_lines: 9 }]).unwrap();
    table
        .add(
            id,
            commit('b'),
            vec![
                InputDiff { old_start: 2, old_lines: 2, new_start: 2, new_lines: 2 },
                InputDiff { old_start: 6, old_lines: 1, new_start: 6, new_lines: 1 },
            ],
        )
        .unwrap();
    table.add(id, commit('c'), vec![InputDiff { old_start: 3, old_lines: 1, new_start: 3, new_lines: 1 }]).unwrap();
    let listed: Vec<(char, i32, i32)> = table
        .hunks
        .iter()
        .map(|h| (if h.commit_id == commit('a') { 'a' } else if h.commit_id == commit('b') { 'b' } else { 'c' }, h.start, h.lines))
        .collect();
    assert_eq!(listed, vec![('a', 1, 1), ('b', 2, 1), ('c', 3, 1), ('b', 4, 0), ('a', 4, 2), ('b', 6, 1), ('a', 7, 3)]);
    for pair in table.hunks.windows(2) {
        assert!(pair[0].start + pair[0].lines <= pair[1].start);
    }
    assert!(table.hunks.iter().all(|h| h.lines >= 0));
}

#[test]
fn lines_added_at_the_end_of_a_range_leave_less_than_nothing_below() {
    let id = StackId::from_u128(1);
    let mut table = PathHunkRanges::new();
    table.add(id, commit('a'), vec![InputDiff { old_start: 1, old_lines: 0, new_start: 1, new_lines: 3 }]).unwrap();
    table.add(id, commit('b'), vec![InputDiff { old_start: 3, old_lines: 0, new_start: 3, new_lines: 2 }]).unwrap();
    let listed: Vec<(i32, i32, i32)> = table.hunks.iter().map(|h| (h.start, h.lines, h.line_shift)).collect();
    assert_eq!(listed, vec![(1, 2, 0), (3, 2, 2), (5, -1, 3)]);
}

#[test]
fn lines_added_between_ranges_move_the_ranges_behind() {
    let id = StackId::from_u128(1);
    let mut table = PathHunkRanges::new();
    table.add(id, commit('a'), vec![InputDiff { old_start: 2, old_lines: 0, new_start: 2, new_lines: 1 }]).unwrap();
    table.add(id, commit('b'), vec![InputDiff { old_start: 6, old_lines: 1, new_start: 6, new_lines: 2 }]).unwrap();
    table
        .add(
            id,
            commit('c'),
            vec![
                InputDiff { old_start: 1, old_lines: 0, new_start: 1, new_lines: 1 },
                InputDiff { old_start: 4, old_lines: 1, new_start: 5, new_lines: 0 },
            ],
        )
        .unwrap();
    let listed: Vec<(i32, i32, i32)> = table.hunks.iter().map(|h| (h.start, h.lines, h.line_shift)).collect();
    assert_eq!(listed, vec![(1, 1, 1), (3, 1, 1), (5, 0, -1), (6, 2, 1)]);
    for pair in table.hunks.windows(2) {
        assert!(pair[0].start + pair[0].lines <= pair[1].start);
    }
}

#[test]
fn a_commit_owns_the_ranges_of_its_diffs() {
    let id = StackId::from_u128(1);
    let mut table = PathHunkRanges::new();
    table.add(id, commit('a'), vec![InputDiff { old_start: 1, old_lines: 0, new_start: 1, new_lines: 9 }]).unwrap();
    let diffs = vec![
        InputDiff { old_start: 2, old_lines: 1, new_start: 2, new_lines: 1 },
        InputDiff { old_start: 5, old_lines: 2, new_start: 5, new_lines: 1 },
    ];
    table.add(id, commit('b'), diffs.clone()).unwrap();
    let own: Vec<(i32, i32, i32)> = table
        .hunks
        .iter()
        .filter(|h| h.commit_id == commit('b'))
        .map(|h| (h.start, h.lines, h.line_shift))
        .collect();
    let expected: Vec<(i32, i32, i32)> =
        diffs.iter().map(|d| (d.new_start, d.new_lines, d.new_lines - d.old_lines)).collect();
    assert_eq!(own, expected);
}
