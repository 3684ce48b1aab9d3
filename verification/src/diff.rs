//! Unified-diff hunks reduced to the region they change.
//!
//! A hunk is a header line `@@ -A,B +C,D @@` followed by body lines. Up to
//! three unchanged lines at either end of the body are context; they are
//! taken out of the counts, so that an [`InputDiff`] covers changed lines only.

use vstd::prelude::*;

use crate::text::{chars_of, ints};

verus! {

/// The changed region of one hunk, in 1-based line numbers.
#[derive(Debug, PartialEq, Eq, Clone, Copy, Structural)]
pub struct InputDiff {
    pub old_start: i32,
    pub old_lines: i32,
    pub new_start: i32,
    pub new_lines: i32,
}

/// Why a text is not a hunk.
#[derive(Debug, PartialEq, Eq, Clone, Copy, Structural)]
pub enum DiffError {
    /// The text is empty.
    NoHeader,
    /// The first line is not a hunk header, or its numbers cannot be used.
    Malformed,
}

impl DiffError {
    /// The message of the error.
    pub fn message(&self) -> (s: &'static str)
        ensures
            s@ == match self {
                DiffError::NoHeader => "No header found"@,
                DiffError::Malformed => "Malformed undiff"@,
            },
    {
        match self {
            DiffError::NoHeader => "No header found",
            DiffError::Malformed => "Malformed undiff",
        }
    }
}

impl InputDiff {
    /// Lines added minus lines removed.
    pub open spec fn net(&self) -> int {
        self.new_lines - self.old_lines
    }

    /// Lines added minus lines removed.
    pub fn net_lines(&self) -> (n: i32)
        requires
            i32::MIN <= self.net() <= i32::MAX,
        ensures
            n == self.net(),
    {
        self.new_lines - self.old_lines
    }

    /// Reads a hunk; see [`parse_diff`].
    pub fn try_from(value: &str) -> (r: Result<InputDiff, DiffError>)
        ensures
            r == parsed(value@),
    {
        parse_diff(value)
    }
}

// ---------------------------------------------------------------------------
// The grammar
// ---------------------------------------------------------------------------
/// The characters that separate the fields of a header: Unicode white space.
pub open spec fn is_space(c: char) -> bool {
    let n = c as u32;
    ||| 0x09 <= n <= 0x0d
    ||| n == 0x20
    ||| n == 0x85
    ||| n == 0xa0
    ||| n == 0x1680
    ||| 0x2000 <= n <= 0x200a
    ||| n == 0x2028
    ||| n == 0x2029
    ||| n == 0x202f
    ||| n == 0x205f
    ||| n == 0x3000
}

/// Whether `c` marks a changed line or a signed number.
pub open spec fn is_sign(c: char) -> bool {
    c == '-' || c == '+'
}

/// What a scan of the text looks for.
#[derive(Debug, PartialEq, Eq, Clone, Copy, Structural)]
pub enum Stop {
    /// A newline.
    Newline,
    /// White space.
    Space,
    /// Anything but white space.
    Word,
    /// Anything but `-` and `+`.
    Unsigned,
    /// A comma.
    Comma,
}

/// Whether a scan for `kind` stops at `c`.
pub open spec fn stops(kind: Stop, c: char) -> bool {
    match kind {
        Stop::Newline => c == '\n',
        Stop::Space => is_space(c),
        Stop::Word => !is_space(c),
        Stop::Unsigned => !is_sign(c),
        Stop::Comma => c == ',',
    }
}

/// First position at or after `i`, below `end`, where a scan for `kind` stops; `end` if none.
pub open spec fn scan(s: Seq<char>, i: int, end: int, kind: Stop) -> int
    decreases end - i,
{
    if i >= end {
        end
    } else if stops(kind, s[i]) {
        i
    } else {
        scan(s, i + 1, end, kind)
    }
}

/// End of the line that starts at `i`: the position of its newline, or the end of the text.
pub open spec fn line_end(s: Seq<char>, i: int) -> int {
    scan(s, i, s.len() as int, Stop::Newline)
}

/// Start positions of the lines from position `i` on. A newline ends a line;
/// nothing follows the last newline.
pub open spec fn line_starts(s: Seq<char>, i: int) -> Seq<int>
    decreases s.len() + 1 - i,
    via line_starts_decreases
{
    if 0 <= i < s.len() {
        seq![i] + line_starts(s, line_end(s, i) + 1)
    } else {
        Seq::empty()
    }
}

#[via_fn]
proof fn line_starts_decreases(s: Seq<char>, i: int) {
    if 0 <= i < s.len() {
        lemma_scan_bounds(s, i, s.len() as int, Stop::Newline);
        assert(line_end(s, i) >= i);
    }
}

/// A scan ends between its start and its limit.
pub proof fn lemma_scan_bounds(s: Seq<char>, i: int, end: int, kind: Stop)
    requires
        i <= end,
    ensures
        i <= scan(s, i, end, kind) <= end,
    decreases end - i,
{
    if i < end && !stops(kind, s[i]) {
        lemma_scan_bounds(s, i + 1, end, kind);
    }
}

/// Whether the line that starts at `p` is unchanged: it begins with neither `-` nor `+`.
pub open spec fn is_context(s: Seq<char>, p: int) -> bool {
    !(0 <= p < s.len() && is_sign(s[p]))
}

/// Number of unchanged lines at the front of `starts`.
pub open spec fn leading_context(s: Seq<char>, starts: Seq<int>) -> int
    decreases starts.len(),
{
    if starts.len() > 0 && is_context(s, starts[0]) {
        1 + leading_context(s, starts.drop_first())
    } else {
        0
    }
}

/// The first `n` items of `v`, or all of them.
pub open spec fn first_n(v: Seq<int>, n: int) -> Seq<int> {
    if v.len() <= n { v } else { v.take(n) }
}

/// The last `n` items of `v`, or all of them, last one first.
pub open spec fn last_n_reversed(v: Seq<int>, n: int) -> Seq<int> {
    first_n(v.reverse(), n)
}

/// Start of field number `k` of the line `s[..end]`, counted from position `i`,
/// where fields are separated by white space; `end` if there is none.
pub open spec fn field_start(s: Seq<char>, i: int, end: int, k: nat) -> int
    decreases k,
{
    let b = scan(s, i, end, Stop::Word);
    if k == 0 {
        b
    } else {
        field_start(s, scan(s, b, end, Stop::Space), end, (k - 1) as nat)
    }
}

/// Value of the decimal digit `c`.
pub open spec fn digit_value(c: char) -> Option<int> {
    if '0' <= c <= '9' { Some(c as int - '0' as int) } else { None }
}

/// Whether `s[from..to]` holds decimal digits only.
pub open spec fn all_digits(s: Seq<char>, from: int, to: int) -> bool {
    forall|k: int| from <= k < to ==> (#[trigger] digit_value(s[k])) is Some
}

/// The number written by the digits `s[from..to]`.
pub open spec fn digits_value(s: Seq<char>, from: int, to: int) -> int
    decreases to - from,
{
    if from >= to {
        0
    } else {
        digits_value(s, from, to - 1) * 10 + digit_value(s[to - 1]).unwrap_or(0)
    }
}

/// The number written in `s[from..to]`: an optional sign and at least one
/// digit, no more; the value must fit in 32 bits.
pub open spec fn number(s: Seq<char>, from: int, to: int) -> Option<int> {
    let signed = from < to && is_sign(s[from]);
    let first = if signed { from + 1 } else { from };
    let magnitude = digits_value(s, first, to);
    let value = if signed && s[from] == '-' { -magnitude } else { magnitude };
    if first < to && all_digits(s, first, to) && i32::MIN <= value <= i32::MAX {
        Some(value)
    } else {
        None
    }
}

/// Start and length that the field `s[from..to]` gives: leading signs are
/// dropped, then comes the start, then, after a comma, the length; the
/// length is 1 where there is no comma. What follows a second comma is not
/// read.
pub open spec fn range_of(s: Seq<char>, from: int, to: int) -> Option<(int, int)> {
    let a = scan(s, from, to, Stop::Unsigned);
    let a_end = scan(s, a, to, Stop::Comma);
    let b_end = scan(s, a_end + 1, to, Stop::Comma);
    match number(s, a, a_end) {
        None => None,
        Some(start) => if a_end >= to {
            Some((start, 1int))
        } else {
            match number(s, a_end + 1, b_end) {
                None => None,
                Some(lines) => Some((start, lines)),
            }
        },
    }
}

/// The two ranges of the header `s[..end]`: its second and third field.
pub open spec fn header_ranges(s: Seq<char>, end: int) -> Option<((int, int), (int, int))> {
    let f1 = field_start(s, 0, end, 1);
    let f1_end = scan(s, f1, end, Stop::Space);
    let f2 = field_start(s, 0, end, 2);
    let f2_end = scan(s, f2, end, Stop::Space);
    if f2 >= end {
        None
    } else {
        match (range_of(s, f1, f1_end), range_of(s, f2, f2_end)) {
            (Some(old), Some(new)) => Some((old, new)),
            _ => None,
        }
    }
}

/// Start positions of the body lines: all lines but the first.
pub open spec fn body_starts(s: Seq<char>) -> Seq<int> {
    line_starts(s, line_end(s, 0) + 1)
}

/// Unchanged lines at the front of the body, among its first three lines.
pub open spec fn head_context(s: Seq<char>) -> int {
    leading_context(s, first_n(body_starts(s), 3))
}

/// Unchanged lines at the back of the body, among its last three lines.
pub open spec fn tail_context(s: Seq<char>) -> int {
    leading_context(s, last_n_reversed(body_starts(s), 3))
}

/// Whether a number fits in 32 bits.
pub open spec fn fits_i32(v: int) -> bool {
    i32::MIN <= v <= i32::MAX
}

/// What a hunk text stands for.
pub open spec fn parsed(s: Seq<char>) -> Result<InputDiff, DiffError> {
    let end = line_end(s, 0);
    if s.len() == 0 {
        Err(DiffError::NoHeader)
    } else if !(end >= 2 && s[0] == '@' && s[1] == '@') {
        Err(DiffError::Malformed)
    } else {
        match header_ranges(s, end) {
            None => Err(DiffError::Malformed),
            Some((old, new)) => {
                let head = head_context(s);
                let tail = tail_context(s);
                if fits_i32(old.0 + head) && fits_i32(old.1 - head - tail) && fits_i32(new.0 + head)
                    && fits_i32(new.1 - head - tail) {
                    Ok(
                        InputDiff {
                            old_start: (old.0 + head) as i32,
                            old_lines: (old.1 - head - tail) as i32,
                            new_start: (new.0 + head) as i32,
                            new_lines: (new.1 - head - tail) as i32,
                        },
                    )
                } else {
                    Err(DiffError::Malformed)
                }
            },
        }
    }
}

// ---------------------------------------------------------------------------
// The parser
// ---------------------------------------------------------------------------
fn is_space_char(c: char) -> (b: bool)
    ensures
        b == is_space(c),
{
    let n = c as u32;
    (0x09 <= n && n <= 0x0d) || n == 0x20 || n == 0x85 || n == 0xa0 || n == 0x1680 || (0x2000 <= n
        && n <= 0x200a) || n == 0x2028 || n == 0x2029 || n == 0x202f || n == 0x205f || n == 0x3000
}

fn stops_at(kind: Stop, c: char) -> (b: bool)
    ensures
        b == stops(kind, c),
{
    match kind {
        Stop::Newline => c == '\n',
        Stop::Space => is_space_char(c),
        Stop::Word => !is_space_char(c),
        Stop::Unsigned => !(c == '-' || c == '+'),
        Stop::Comma => c == ',',
    }
}

/// First position at or after `from`, below `end`, where a scan for `kind` stops.
pub fn scan_to(text: &Vec<char>, from: usize, end: usize, kind: Stop) -> (r: usize)
    requires
        from <= end <= text.len(),
    ensures
        r == scan(text@, from as int, end as int, kind),
        from <= r <= end,
{
    let mut i = from;
    while i < end && !stops_at(kind, text[i])
        invariant
            from <= i <= end <= text.len(),
            scan(text@, from as int, end as int, kind) == scan(text@, i as int, end as int, kind),
        decreases end - i,
    {
        i += 1;
    }
    i
}

proof fn lemma_digits_bounds(s: Seq<char>, from: int, k: int, to: int)
    requires
        from <= k <= to,
    ensures
        0 <= digits_value(s, from, k) <= digits_value(s, from, to),
    decreases to - k,
{
    lemma_digits_nonneg(s, from, k);
    if k < to {
        lemma_digits_bounds(s, from, k, to - 1);
        lemma_digits_nonneg(s, from, to - 1);
    }
}

proof fn lemma_digits_nonneg(s: Seq<char>, from: int, to: int)
    ensures
        0 <= digits_value(s, from, to),
    decreases to - from,
{
    if from < to {
        lemma_digits_nonneg(s, from, to - 1);
    }
}

/// Reads the number written in `text[from..to]`.
pub fn parse_number(text: &Vec<char>, from: usize, to: usize) -> (r: Option<i32>)
    requires
        from <= to <= text.len(),
    ensures
        match number(text@, from as int, to as int) {
            Some(v) => r == Some(v as i32),
            None => r is None,
        },
{
    let signed = from < to && (text[from] == '-' || text[from] == '+');
    let first = if signed { from + 1 } else { from };
    if first >= to {
        return None;
    }
    let mut acc: i64 = 0;
    let mut k = first;
    while k < to
        invariant
            first <= k <= to <= text.len(),
            from <= first,
            signed == (from < to && is_sign(text@[from as int])),
            first == if signed { from + 1 } else { from as int },
            all_digits(text@, first as int, k as int),
            acc == digits_value(text@, first as int, k as int),
            0 <= acc <= 2147483648,
        decreases to - k,
    {
        let c = text[k];
        if !('0' <= c && c <= '9') {
            assert(digit_value(text@[k as int]) is None);
            return None;
        }
        let d = (c as u32 - '0' as u32) as i64;
        acc = acc * 10 + d;
        k += 1;
        if acc > 2147483648 {
            proof {
                lemma_digits_bounds(text@, first as int, k as int, to as int);
            }
            return None;
        }
    }
    if signed && text[from] == '-' {
        Some((-acc) as i32)
    } else if acc <= 2147483647 {
        Some(acc as i32)
    } else {
        None
    }
}

fn range_in(text: &Vec<char>, from: usize, to: usize) -> (r: Option<(i32, i32)>)
    requires
        from <= to <= text.len(),
    ensures
        match range_of(text@, from as int, to as int) {
            Some(v) => r == Some((v.0 as i32, v.1 as i32)) && fits_i32(v.0) && fits_i32(v.1),
            None => r is None,
        },
{
    let a = scan_to(text, from, to, Stop::Unsigned);
    let a_end = scan_to(text, a, to, Stop::Comma);
    match parse_number(text, a, a_end) {
        None => None,
        Some(start) => {
            if a_end >= to {
                Some((start, 1))
            } else {
                let b_end = scan_to(text, a_end + 1, to, Stop::Comma);
                match parse_number(text, a_end + 1, b_end) {
                    None => None,
                    Some(lines) => Some((start, lines)),
                }
            }
        },
    }
}

/// Reads one range of a header, such as `-12,3` or `+7`.
pub fn parse_header(hunk_info: &str) -> (r: Option<(i32, i32)>)
    ensures
        match range_of(hunk_info@, 0, hunk_info@.len() as int) {
            Some(v) => r == Some((v.0 as i32, v.1 as i32)) && fits_i32(v.0) && fits_i32(v.1),
            None => r is None,
        },
{
    let text = chars_of(hunk_info);
    range_in(&text, 0, text.len())
}

/// Counts the unchanged lines at the front of the lines that start at `starts`.
pub fn count_context_lines(text: &Vec<char>, starts: &Vec<usize>) -> (n: i32)
    requires
        starts.len() <= i32::MAX,
    ensures
        n == leading_context(text@, ints(starts@)),
        0 <= n <= starts.len(),
{
    let mut n: i32 = 0;
    let mut k: usize = 0;
    assert(ints(starts@).skip(0) =~= ints(starts@));
    while k < starts.len()
        invariant
            k <= starts.len() <= i32::MAX,
            n == k,
            leading_context(text@, ints(starts@)) == k + leading_context(
                text@,
                ints(starts@).skip(k as int),
            ),
        decreases starts.len() - k,
    {
        let p = starts[k];
        let ghost rest = ints(starts@).skip(k as int);
        assert(rest.len() > 0 && rest[0] == p as int);
        if p < text.len() && (text[p] == '-' || text[p] == '+') {
            return n;
        }
        assert(rest.drop_first() =~= ints(starts@).skip(k + 1));
        n += 1;
        k += 1;
    }
    assert(ints(starts@).skip(k as int).len() == 0);
    n
}

fn body_line_starts(text: &Vec<char>, header_end: usize) -> (starts: Vec<usize>)
    requires
        header_end == line_end(text@, 0),
        header_end <= text.len(),
    ensures
        ints(starts@) == body_starts(text@),
{
    let mut starts: Vec<usize> = Vec::new();
    if header_end >= text.len() {
        assert(ints(starts@) =~= body_starts(text@));
        return starts;
    }
    let mut p = header_end + 1;
    assert(ints(starts@) + line_starts(text@, p as int) =~= body_starts(text@));
    while p < text.len()
        invariant
            p <= text.len(),
            ints(starts@) + line_starts(text@, p as int) == body_starts(text@),
        decreases text.len() - p,
    {
        let e = scan_to(text, p, text.len(), Stop::Newline);
        let ghost before = ints(starts@);
        starts.push(p);
        assert(ints(starts@) + line_starts(text@, e + 1) =~= before + line_starts(text@, p as int)) by {
            assert(ints(starts@) =~= before.push(p as int));
        }
        if e >= text.len() {
            assert(ints(starts@) =~= body_starts(text@));
            return starts;
        }
        p = e + 1;
    }
    assert(ints(starts@) =~= body_starts(text@));
    starts
}

/// Reads a hunk: the header's two ranges, moved past the leading context and
/// shortened by the context on both sides.
pub fn parse_diff(value: &str) -> (r: Result<InputDiff, DiffError>)
    ensures
        r == parsed(value@),
{
    let text = chars_of(value);
    if text.len() == 0 {
        return Err(DiffError::NoHeader);
    }
    let end = scan_to(&text, 0, text.len(), Stop::Newline);
    if !(end >= 2 && text[0] == '@' && text[1] == '@') {
        return Err(DiffError::Malformed);
    }
    let b0 = scan_to(&text, 0, end, Stop::Word);
    let w0 = scan_to(&text, b0, end, Stop::Space);
    let f1 = scan_to(&text, w0, end, Stop::Word);
    let f1_end = scan_to(&text, f1, end, Stop::Space);
    let f2 = scan_to(&text, f1_end, end, Stop::Word);
    let f2_end = scan_to(&text, f2, end, Stop::Space);
    proof {
        reveal_with_fuel(field_start, 3);
        assert(field_start(text@, 0, end as int, 1) == f1);
        assert(field_start(text@, 0, end as int, 2) == f2);
    }
    if f2 >= end {
        return Err(DiffError::Malformed);
    }
    let old = match range_in(&text, f1, f1_end) {
        Some(v) => v,
        None => {
            return Err(DiffError::Malformed);
        },
    };
    let new = match range_in(&text, f2, f2_end) {
        Some(v) => v,
        None => {
            return Err(DiffError::Malformed);
        },
    };
    let starts = body_line_starts(&text, end);
    let n = starts.len();
    let mut head_lines: Vec<usize> = Vec::new();
    let mut tail_lines: Vec<usize> = Vec::new();
    let mut k: usize = 0;
    while k < 3 && k < n
        invariant
            k <= 3,
            k <= n,
            n == starts.len(),
            head_lines.len() == k,
            tail_lines.len() == k,
            forall|j: int| 0 <= j < k ==> head_lines@[j] == starts@[j],
            forall|j: int| 0 <= j < k ==> tail_lines@[j] == starts@[n - 1 - j],
        decreases 3 - k,
    {
        head_lines.push(starts[k]);
        tail_lines.push(starts[n - 1 - k]);
        k += 1;
    }
    proof {
        let body = body_starts(text@);
        assert(ints(head_lines@) =~= first_n(body, 3));
        assert(ints(tail_lines@) =~= last_n_reversed(body, 3));
    }
    let head = count_context_lines(&text, &head_lines) as i64;
    let tail = count_context_lines(&text, &tail_lines) as i64;
    let old_start = old.0 as i64 + head;
    let old_lines = old.1 as i64 - head - tail;
    let new_start = new.0 as i64 + head;
    let new_lines = new.1 as i64 - head - tail;
    if fits(old_start) && fits(old_lines) && fits(new_start) && fits(new_lines) {
        Ok(
            InputDiff {
                old_start: old_start as i32,
                old_lines: old_lines as i32,
                new_start: new_start as i32,
                new_lines: new_lines as i32,
            },
        )
    } else {
        Err(DiffError::Malformed)
    }
}

fn fits(v: i64) -> (b: bool)
    ensures
        b == fits_i32(v as int),
{
    -2147483648 <= v && v <= 2147483647
}

// ---------------------------------------------------------------------------
// What the counts of a consistent hunk are
// ---------------------------------------------------------------------------
/// Number of the lines at `starts` that begin with `sign`.
pub open spec fn count_sign(s: Seq<char>, starts: Seq<int>, sign: char) -> int
    decreases starts.len(),
{
    if starts.len() == 0 {
        0
    } else {
        count_sign(s, starts.drop_last(), sign) + if !is_context(s, starts.last()) && s[starts.last()]
            == sign {
            1int
        } else {
            0int
        }
    }
}

/// Number of the lines at `starts` that are unchanged.
pub open spec fn count_context(s: Seq<char>, starts: Seq<int>) -> int
    decreases starts.len(),
{
    if starts.len() == 0 {
        0
    } else {
        count_context(s, starts.drop_last()) + if is_context(s, starts.last()) {
            1int
        } else {
            0int
        }
    }
}

/// Whether the header of the hunk `s` counts what its body holds, and the
/// body changes at least one line.
pub open spec fn is_consistent(s: Seq<char>) -> bool {
    let body = body_starts(s);
    match header_ranges(s, line_end(s, 0)) {
        None => false,
        Some((old, new)) => {
            &&& old.1 == count_context(s, body) + count_sign(s, body, '-')
            &&& new.1 == count_context(s, body) + count_sign(s, body, '+')
            &&& exists|m: int| 0 <= m < body.len() && !is_context(s, #[trigger] body[m])
        },
    }
}

proof fn lemma_leading_run(s: Seq<char>, b: Seq<int>)
    ensures
        0 <= leading_context(s, b) <= b.len(),
        forall|k: int| 0 <= k < leading_context(s, b) ==> is_context(s, #[trigger] b[k]),
        leading_context(s, b) < b.len() ==> !is_context(s, b[leading_context(s, b)]),
    decreases b.len(),
{
    if b.len() > 0 && is_context(s, b[0]) {
        let rest = b.drop_first();
        lemma_leading_run(s, rest);
        assert forall|k: int| 0 <= k < leading_context(s, b) implies is_context(s, #[trigger] b[k]) by {
            if k > 0 {
                assert(b[k] == rest[k - 1]);
            }
        }
        if leading_context(s, b) < b.len() {
            assert(b[leading_context(s, b)] == rest[leading_context(s, rest)]);
        }
    }
}

proof fn lemma_count_bounds(s: Seq<char>, b: Seq<int>, front: int, back: int)
    requires
        0 <= front,
        0 <= back,
        front + back <= b.len(),
        forall|k: int| 0 <= k < front ==> is_context(s, #[trigger] b[k]),
        forall|k: int| b.len() - back <= k < b.len() ==> is_context(s, #[trigger] b[k]),
    ensures
        front + back <= count_context(s, b),
        0 <= count_sign(s, b, '-'),
        0 <= count_sign(s, b, '+'),
    decreases b.len(),
{
    if b.len() > 0 {
        let rest = b.drop_last();
        if back > 0 {
            lemma_count_bounds(s, rest, front, back - 1);
        } else if front == b.len() {
            lemma_count_bounds(s, rest, front - 1, 0);
        } else {
            lemma_count_bounds(s, rest, front, 0);
        }
    }
}

/// The counts of a consistent hunk: no count is negative, and the net
/// change is the number of added lines minus the number of removed lines.
pub proof fn lemma_consistent_counts(s: Seq<char>)
    requires
        is_consistent(s),
        parsed(s) is Ok,
    ensures
        parsed(s)->Ok_0.old_lines >= 0,
        parsed(s)->Ok_0.new_lines >= 0,
        parsed(s)->Ok_0.net() == count_sign(s, body_starts(s), '+') - count_sign(
            s,
            body_starts(s),
            '-',
        ),
{
    let body = body_starts(s);
    let n = body.len() as int;
    let m = choose|m: int| 0 <= m < body.len() && !is_context(s, #[trigger] body[m]);
    let front = first_n(body, 3);
    let back = last_n_reversed(body, 3);
    lemma_leading_run(s, front);
    lemma_leading_run(s, back);
    let head = head_context(s);
    let tail = tail_context(s);
    assert forall|k: int| 0 <= k < head implies is_context(s, #[trigger] body[k]) by {
        assert(front[k] == body[k]);
    }
    assert forall|k: int| n - tail <= k < n implies is_context(s, #[trigger] body[k]) by {
        assert(back[n - 1 - k] == body[k]);
    }
    assert(head <= m);
    assert(m < n - tail);
    lemma_count_bounds(s, body, head, tail);
}

} // verus!
