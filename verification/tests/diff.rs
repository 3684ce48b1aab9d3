use stack_engine::diff::{parse_diff, parse_header, DiffError, InputDiff};

#[test]
fn diff_simple() {
    let header = InputDiff::try_from(
        "@@ -1,6 +1,7 @@
1
2
3
+4
5
6
7
",
    )
    .unwrap();
    assert_eq!(header.old_start, 4);
    assert_eq!(header.old_lines, 0);
    assert_eq!(header.new_start, 4);
    assert_eq!(header.new_lines, 1);
}

#[test]
fn diff_complex() {
    let header = InputDiff::try_from(
        "@@ -5,7 +5,6 @@
5
6
7
-8
-9
+a
10
11
",
    )
    .unwrap();
    assert_eq!(header.old_start, 8);
    assert_eq!(header.old_lines, 2);
    assert_eq!(header.new_start, 8);
    assert_eq!(header.new_lines, 1);
}

#[test]
fn diff_net_lines_is_added_minus_removed() {
    let diff = parse_diff("@@ -5,7 +5,6 @@\n5\n6\n7\n-8\n-9\n+a\n10\n11\n").unwrap();
    assert_eq!(diff.net_lines(), -1);
    let diff = parse_diff("@@ -1,0 +1,7 @@\n+a\n+a\n+a\n+a\n+a\n+a\n+a\n").unwrap();
    assert_eq!(diff, InputDiff { old_start: 1, old_lines: 0, new_start: 1, new_lines: 7 });
    assert_eq!(diff.net_lines(), 7);
}

#[test]
fn diff_without_lengths_counts_one_line() {
    let diff = parse_diff("@@ -3 +3 @@\n-a\n+b\n").unwrap();
    assert_eq!(diff, InputDiff { old_start: 3, old_lines: 1, new_start: 3, new_lines: 1 });
}

#[test]
fn diff_keeps_counts_without_context() {
    let diff = parse_diff("@@ -10,2 +10,3 @@ fn main() {\n-a\n-b\n+c\n+d\n+e").unwrap();
    assert_eq!(diff, InputDiff { old_start: 10, old_lines: 2, new_start: 10, new_lines: 3 });
}

#[test]
fn diff_context_is_capped_at_three_lines() {
    let diff = parse_diff("@@ -1,9 +1,9 @@\n1\n2\n3\n4\n-5\n+x\n6\n7\n8\n9\n").unwrap();
    assert_eq!(diff, InputDiff { old_start: 4, old_lines: 3, new_start: 4, new_lines: 3 });
}

#[test]
fn diff_empty_text_has_no_header() {
    assert_eq!(parse_diff(""), Err(DiffError::NoHeader));
    assert_eq!(DiffError::NoHeader.message(), "No header found");
}

#[test]
fn diff_without_marker_is_malformed() {
    assert_eq!(parse_diff("-1,6 +1,7\n+a\n"), Err(DiffError::Malformed));
    assert_eq!(parse_diff("\n@@ -1,6 +1,7 @@\n"), Err(DiffError::Malformed));
    assert_eq!(DiffError::Malformed.message(), "Malformed undiff");
}

#[test]
fn diff_with_unreadable_ranges_is_malformed() {
    assert_eq!(parse_diff("@@\n+a\n"), Err(DiffError::Malformed));
    assert_eq!(parse_diff("@@ -1,6\n+a\n"), Err(DiffError::Malformed));
    assert_eq!(parse_diff("@@ -x,6 +1,7 @@\n+a\n"), Err(DiffError::Malformed));
    assert_eq!(parse_diff("@@ -1, +1,7 @@\n+a\n"), Err(DiffError::Malformed));
    assert_eq!(parse_diff("@@ -99999999999,1 +1,7 @@\n+a\n"), Err(DiffError::Malformed));
}

#[test]
fn header_range_is_read_with_and_without_length() {
    assert_eq!(parse_header("-12,3"), Some((12, 3)));
    assert_eq!(parse_header("+7"), Some((7, 1)));
    assert_eq!(parse_header("+2147483647,0"), Some((2147483647, 0)));
    assert_eq!(parse_header("+2147483648"), None);
    assert_eq!(parse_header(""), None);
    assert_eq!(parse_header("-1,2,x"), Some((1, 2)));
}
