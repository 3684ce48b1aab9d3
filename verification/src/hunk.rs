//! A line range of a file and the commit that owns it.

use vstd::prelude::*;

use crate::diff::fits_i32;
use crate::object_id::ObjectId;
use crate::stack_id::StackId;

verus! {

/// A run of lines of one file, last changed by `commit_id` of stack `stack_id`.
///
/// `line_shift` is the number of lines that this commit added here, net of
/// those it removed; a range of no lines marks a deletion.
#[derive(Debug, PartialEq, Eq, Clone, Copy)]
pub struct HunkRange {
    pub stack_id: StackId,
    pub commit_id: ObjectId,
    pub start: i32,
    pub lines: i32,
    pub line_shift: i32,
}

/// What can go wrong when a commit is folded into a range table.
#[derive(Debug, PartialEq, Eq, Clone, Copy, Structural)]
pub enum RangeFault {
    /// A line number of the result does not fit in 32 bits.
    OutOfRange,
    /// The commit was folded into the table of this path before.
    DuplicateCommit,
}

impl HunkRange {
    /// The last line of the range; one before `start` where it has no lines.
    pub open spec fn end_spec(&self) -> int {
        self.start + self.lines - 1
    }

    /// Whether the range meets the `lines` lines from `start` on.
    pub open spec fn intersects_spec(&self, start: int, lines: int) -> bool {
        self.end_spec() >= start && self.start < start + lines
    }

    /// Whether the `lines` lines from `start` on lie in the range, past its first line.
    pub open spec fn contains_spec(&self, start: int, lines: int) -> bool {
        start > self.start && start + lines <= self.end_spec() + 1
    }

    /// Whether the range starts at a line of the file and has no negative length.
    pub open spec fn wf(&self) -> bool {
        self.start >= 1 && self.lines >= 0
    }

    /// The last line of the range; one before `start` where it has no lines.
    pub fn end(&self) -> (e: i64)
        ensures
            e == self.end_spec(),
    {
        self.start as i64 + self.lines as i64 - 1
    }

    /// Whether the range meets the `lines` lines from `start` on.
    pub fn intersects(&self, start: i32, lines: i32) -> (r: bool)
        ensures
            r == self.intersects_spec(start as int, lines as int),
    {
        self.meets(start as i64, lines as i64)
    }

    /// Whether the range meets the `lines` lines from `start` on, for line
    /// numbers of any size.
    pub fn meets(&self, start: i64, lines: i64) -> (r: bool)
        ensures
            r == self.intersects_spec(start as int, lines as int),
    {
        self.end() as i128 >= start as i128 && (self.start as i128) < start as i128 + lines as i128
    }

    /// Whether the `lines` lines from `start` on lie in the range, past its first line.
    pub fn contains(&self, start: i32, lines: i32) -> (r: bool)
        ensures
            r == self.contains_spec(start as int, lines as int),
    {
        start > self.start && start as i64 + lines as i64 <= self.end() + 1
    }
}

/// The range with the given numbers, where they fit in 32 bits.
pub open spec fn made(
    stack_id: StackId,
    commit_id: ObjectId,
    start: int,
    lines: int,
    line_shift: int,
) -> Option<HunkRange> {
    if fits_i32(start) && fits_i32(lines) && fits_i32(line_shift) {
        Some(
            HunkRange {
                stack_id,
                commit_id,
                start: start as i32,
                lines: lines as i32,
                line_shift: line_shift as i32,
            },
        )
    } else {
        None
    }
}

/// All of `parts`, where none is missing.
pub open spec fn all_made(parts: Seq<Option<HunkRange>>) -> Option<Seq<HunkRange>> {
    if forall|i: int| 0 <= i < parts.len() ==> (#[trigger] parts[i]) is Some {
        Some(Seq::new(parts.len(), |i: int| parts[i]->0))
    } else {
        None
    }
}

/// The range with the given numbers, where they fit in 32 bits.
pub fn make(stack_id: StackId, commit_id: ObjectId, start: i128, lines: i128, line_shift: i128) -> (r:
    Option<HunkRange>)
    ensures
        r == made(stack_id, commit_id, start as int, lines as int, line_shift as int),
{
    if -2147483648 <= start && start <= 2147483647 && -2147483648 <= lines && lines <= 2147483647
        && -2147483648 <= line_shift && line_shift <= 2147483647 {
        Some(
            HunkRange {
                stack_id,
                commit_id,
                start: start as i32,
                lines: lines as i32,
                line_shift: line_shift as i32,
            },
        )
    } else {
        None
    }
}

} // verus!
