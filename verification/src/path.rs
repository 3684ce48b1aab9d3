//! The range table of one file within one stack.
//!
//! The table lists, in the line numbers of the stack's tip, which commit owns
//! which lines. A commit is folded in by its diffs against its parent: the
//! diffs and the ranges are walked together by ascending start, and each is
//! placed against the range placed last.

use vstd::prelude::*;

use crate::diff::InputDiff;
use crate::hunk::{all_made, made, make, HunkRange, RangeFault};
use crate::object_id::ObjectId;
use crate::stack_id::StackId;

verus! {

/// The ranges of one file within one stack, and the commits folded in so far.
#[derive(Debug, PartialEq, Eq, Clone)]
pub struct PathHunkRanges {
    pub hunks: Vec<HunkRange>,
    pub commit_ids: Vec<ObjectId>,
}

// ---------------------------------------------------------------------------
// The merge, step by step
// ---------------------------------------------------------------------------
/// What placing the diff `d` of a new commit against the range placed last
/// gives: the ranges up to the new one, which comes last or, where `last`
/// is split in three, in the middle.
///
/// Where `last` ends before the diff begins, or only overlaps it, both stay
/// as they are. Where the diff lies inside `last`, `last` is split: what
/// lies above the diff keeps its owner and shifts nothing, what lies below
/// keeps its owner and its shift.
pub open spec fn add_new_spec(
    d: InputDiff,
    last: Option<HunkRange>,
    stack_id: StackId,
    commit_id: ObjectId,
) -> Option<Seq<HunkRange>> {
    let fresh = made(stack_id, commit_id, d.new_start as int, d.new_lines as int, d.net());
    match last {
        None => all_made(seq![fresh]),
        Some(l) => if l.end_spec() >= d.old_start && l.contains_spec(
            d.old_start as int,
            d.old_lines as int,
        ) {
            all_made(
                seq![
                    made(l.stack_id, l.commit_id, l.start as int, d.new_start - l.start, 0),
                    fresh,
                    made(
                        l.stack_id,
                        l.commit_id,
                        d.new_start + d.new_lines,
                        l.start + l.lines - (d.new_start + d.new_lines),
                        l.line_shift as int,
                    ),
                ],
            )
        } else {
            all_made(seq![Some(l), fresh])
        },
    }
}

/// What placing the range `h` of the table against the range placed last
/// gives, `shift` being the lines that the new commit added so far: `h`
/// moves by `shift`; where it begins inside `last` it loses what overlaps,
/// and where it lies inside `last` it is dropped.
pub open spec fn add_existing_spec(h: HunkRange, last: Option<HunkRange>, shift: int) -> Option<
    Seq<HunkRange>,
> {
    match last {
        None => Some(seq![h]),
        Some(l) => if h.start > l.start + l.lines {
            all_made(
                seq![
                    Some(l),
                    made(h.stack_id, h.commit_id, h.start + shift, h.lines as int, h.line_shift as int),
                ],
            )
        } else if l.contains_spec(h.start as int, h.lines as int) {
            Some(seq![l])
        } else {
            all_made(
                seq![
                    Some(l),
                    made(
                        h.stack_id,
                        h.commit_id,
                        h.start + shift,
                        h.lines - (l.start + l.lines - h.start),
                        h.line_shift as int,
                    ),
                ],
            )
        },
    }
}

/// Whether the walk takes diff `i` next, rather than range `j`: the diff
/// begins before the range, or no range is left.
pub open spec fn takes_diff(hunks: Seq<HunkRange>, diffs: Seq<InputDiff>, i: int, j: int) -> bool {
    i < diffs.len() && (j >= hunks.len() || diffs[i].old_start < hunks[j].start)
}

/// Steps that the walk has left.
pub open spec fn steps_left(hunks: Seq<HunkRange>, diffs: Seq<InputDiff>, i: int, j: int) -> nat {
    (if i < diffs.len() { diffs.len() - i } else { 0 }) as nat + (if j < hunks.len() {
        hunks.len() - j
    } else {
        0
    }) as nat
}

/// The table that the walk ends with, from the state after `i` diffs and
/// `j` ranges: `out` is what was placed for good, `last` what was placed
/// last and may still be split, `shift` the lines added so far. `None`
/// where a number does not fit in 32 bits.
pub open spec fn merge_from(
    hunks: Seq<HunkRange>,
    diffs: Seq<InputDiff>,
    i: int,
    j: int,
    shift: int,
    last: Option<HunkRange>,
    out: Seq<HunkRange>,
    stack_id: StackId,
    commit_id: ObjectId,
) -> Option<Seq<HunkRange>>
    decreases steps_left(hunks, diffs, i, j),
{
    if i >= diffs.len() && j >= hunks.len() {
        Some(
            match last {
                Some(l) => out.push(l),
                None => out,
            },
        )
    } else if takes_diff(hunks, diffs, i, j) {
        match add_new_spec(diffs[i], last, stack_id, commit_id) {
            None => None,
            Some(step) => merge_from(
                hunks,
                diffs,
                i + 1,
                j,
                shift + diffs[i].net(),
                Some(step.last()),
                out + step.drop_last(),
                stack_id,
                commit_id,
            ),
        }
    } else {
        match add_existing_spec(hunks[j], last, shift) {
            None => None,
            Some(step) => merge_from(
                hunks,
                diffs,
                i,
                j + 1,
                shift,
                Some(step.last()),
                out + step.drop_last(),
                stack_id,
                commit_id,
            ),
        }
    }
}

/// The table after the commit `commit_id` of `stack_id`, with the diffs
/// `diffs` against its parent, is folded into the table `hunks`.
pub open spec fn merged(
    hunks: Seq<HunkRange>,
    diffs: Seq<InputDiff>,
    stack_id: StackId,
    commit_id: ObjectId,
) -> Option<Seq<HunkRange>> {
    merge_from(hunks, diffs, 0, 0, 0, None, Seq::empty(), stack_id, commit_id)
}

/// The ranges of `hunks` that meet the `lines` lines from `start` on, in order.
pub open spec fn intersecting(hunks: Seq<HunkRange>, start: int, lines: int) -> Seq<HunkRange> {
    hunks.filter(|h: HunkRange| h.intersects_spec(start, lines))
}

/// Places a diff of a new commit against the range placed last.
pub fn add_new(
    new_diff: &InputDiff,
    last_hunk: Option<HunkRange>,
    stack_id: StackId,
    commit_id: ObjectId,
) -> (r: Result<Vec<HunkRange>, RangeFault>)
    ensures
        match add_new_spec(*new_diff, last_hunk, stack_id, commit_id) {
            Some(step) => r is Ok && r->Ok_0@ == step && step.len() >= 1,
            None => r == Err::<Vec<HunkRange>, RangeFault>(RangeFault::OutOfRange),
        },
{
    let net = new_diff.new_lines as i128 - new_diff.old_lines as i128;
    let fresh = make(stack_id, commit_id, new_diff.new_start as i128, new_diff.new_lines as i128, net);
    let ghost spec_fresh = made(
        stack_id,
        commit_id,
        new_diff.new_start as int,
        new_diff.new_lines as int,
        new_diff.net(),
    );
    let mut out: Vec<HunkRange> = Vec::new();
    match last_hunk {
        None => {
            let ghost parts = seq![spec_fresh];
            match fresh {
                Some(f) => {
                    out.push(f);
                    assert(parts[0] is Some);
                    assert(out@ =~= all_made(parts)->0);
                    Ok(out)
                },
                None => {
                    assert(parts[0] is None);
                    Err(RangeFault::OutOfRange)
                },
            }
        },
        Some(l) => {
            if l.end() >= new_diff.old_start as i64 && l.contains(
                new_diff.old_start,
                new_diff.old_lines,
            ) {
                let new_end = new_diff.new_start as i128 + new_diff.new_lines as i128;
                let above = make(
                    l.stack_id,
                    l.commit_id,
                    l.start as i128,
                    new_diff.new_start as i128 - l.start as i128,
                    0,
                );
                let below = make(
                    l.stack_id,
                    l.commit_id,
                    new_end,
                    l.start as i128 + l.lines as i128 - new_end,
                    l.line_shift as i128,
                );
                let ghost parts = seq![above, spec_fresh, below];
                match (above, fresh, below) {
                    (Some(a), Some(f), Some(b)) => {
                        out.push(a);
                        out.push(f);
                        out.push(b);
                        assert(parts[0] is Some && parts[1] is Some && parts[2] is Some);
                        assert(out@ =~= all_made(parts)->0);
                        Ok(out)
                    },
                    _ => {
                        assert(parts[0] is None || parts[1] is None || parts[2] is None);
                        Err(RangeFault::OutOfRange)
                    },
                }
            } else {
                let ghost parts = seq![Some(l), spec_fresh];
                match fresh {
                    Some(f) => {
                        out.push(l);
                        out.push(f);
                        assert(parts[0] is Some && parts[1] is Some);
                        assert(out@ =~= all_made(parts)->0);
                        Ok(out)
                    },
                    None => {
                        assert(parts[1] is None);
                        Err(RangeFault::OutOfRange)
                    },
                }
            }
        },
    }
}

/// Places a range of the table against the range placed last.
pub fn add_existing(hunk: &HunkRange, last_hunk: Option<HunkRange>, shift: i128) -> (r: Result<
    Vec<HunkRange>,
    RangeFault,
>)
    requires
        -0x1_0000_0000_0000_0000_0000_0000 <= shift <= 0x1_0000_0000_0000_0000_0000_0000,
    ensures
        match add_existing_spec(*hunk, last_hunk, shift as int) {
            Some(step) => r is Ok && r->Ok_0@ == step && step.len() >= 1,
            None => r == Err::<Vec<HunkRange>, RangeFault>(RangeFault::OutOfRange),
        },
{
    let mut out: Vec<HunkRange> = Vec::new();
    match last_hunk {
        None => {
            out.push(*hunk);
            assert(out@ =~= seq![*hunk]);
            Ok(out)
        },
        Some(l) => {
            let last_end = l.start as i128 + l.lines as i128;
            if hunk.start as i128 > last_end {
                let moved = make(
                    hunk.stack_id,
                    hunk.commit_id,
                    hunk.start as i128 + shift,
                    hunk.lines as i128,
                    hunk.line_shift as i128,
                );
                let ghost parts = seq![Some(l), moved];
                match moved {
                    Some(m) => {
                        out.push(l);
                        out.push(m);
                        assert(parts[0] is Some && parts[1] is Some);
                        assert(out@ =~= all_made(parts)->0);
                        Ok(out)
                    },
                    None => {
                        assert(parts[1] is None);
                        Err(RangeFault::OutOfRange)
                    },
                }
            } else if l.contains(hunk.start, hunk.lines) {
                out.push(l);
                assert(out@ =~= seq![l]);
                Ok(out)
            } else {
                let moved = make(
                    hunk.stack_id,
                    hunk.commit_id,
                    hunk.start as i128 + shift,
                    hunk.lines as i128 - (last_end - hunk.start as i128),
                    hunk.line_shift as i128,
                );
                let ghost parts = seq![Some(l), moved];
                match moved {
                    Some(m) => {
                        out.push(l);
                        out.push(m);
                        assert(parts[0] is Some && parts[1] is Some);
                        assert(out@ =~= all_made(parts)->0);
                        Ok(out)
                    },
                    None => {
                        assert(parts[1] is None);
                        Err(RangeFault::OutOfRange)
                    },
                }
            }
        },
    }
}

impl PathHunkRanges {
    /// Whether the commit `commit_id` was folded into this table.
    pub open spec fn absorbed(&self, commit_id: ObjectId) -> bool {
        self.commit_ids@.contains(commit_id)
    }

    /// The table of a file that no commit touched.
    pub fn new() -> (t: PathHunkRanges)
        ensures
            t.hunks@ == Seq::<HunkRange>::empty(),
            t.commit_ids@ == Seq::<ObjectId>::empty(),
    {
        PathHunkRanges { hunks: Vec::new(), commit_ids: Vec::new() }
    }

    /// Whether the commit `commit_id` was folded into this table.
    pub fn has_commit(&self, commit_id: &ObjectId) -> (r: bool)
        ensures
            r == self.absorbed(*commit_id),
    {
        let mut k: usize = 0;
        while k < self.commit_ids.len()
            invariant
                k <= self.commit_ids.len(),
                forall|m: int| 0 <= m < k ==> self.commit_ids@[m] != *commit_id,
            decreases self.commit_ids.len() - k,
        {
            if self.commit_ids[k].same(commit_id) {
                return true;
            }
            k += 1;
        }
        false
    }

    /// The ranges that meet the `lines` lines from `start` on, in order.
    pub fn find(&self, start: i32, lines: i32) -> (found: Vec<HunkRange>)
        ensures
            found@ == intersecting(self.hunks@, start as int, lines as int),
    {
        find_in(&self.hunks, start as i64, lines as i64)
    }

    /// Folds in the commit `commit_id` of the stack `stack_id`, given its
    /// diffs against its parent by ascending start. The table stays as it
    /// was where a line number of the result does not fit in 32 bits.
    pub fn add(&mut self, stack_id: StackId, commit_id: ObjectId, diffs: Vec<InputDiff>) -> (r: Result<
        (),
        RangeFault,
    >)
        requires
            !old(self).absorbed(commit_id),
        ensures
            match merged(old(self).hunks@, diffs@, stack_id, commit_id) {
                Some(table) => {
                    &&& r is Ok
                    &&& final(self).hunks@ == table
                    &&& final(self).commit_ids@ == old(self).commit_ids@.push(commit_id)
                },
                None => r == Err::<(), RangeFault>(RangeFault::OutOfRange) && *final(self) == *old(self),
            },
    {
        let mut shift: i128 = 0;
        let mut new_hunks: Vec<HunkRange> = Vec::new();
        let mut last_hunk: Option<HunkRange> = None;
        let mut i: usize = 0;
        let mut j: usize = 0;
        while i < diffs.len() || j < self.hunks.len()
            invariant
                i <= diffs.len(),
                j <= self.hunks.len(),
                *self == *old(self),
                -(i as int) * 0x1_0000_0000 <= shift <= i * 0x1_0000_0000,
                merged(self.hunks@, diffs@, stack_id, commit_id) == merge_from(
                    self.hunks@,
                    diffs@,
                    i as int,
                    j as int,
                    shift as int,
                    last_hunk,
                    new_hunks@,
                    stack_id,
                    commit_id,
                ),
            decreases diffs.len() - i + self.hunks.len() - j,
        {
            let step = if i < diffs.len() && (j >= self.hunks.len() || diffs[i].old_start
                < self.hunks[j].start) {
                let d = diffs[i];
                i += 1;
                let placed = add_new(&d, last_hunk, stack_id, commit_id);
                shift = shift + (d.new_lines as i128 - d.old_lines as i128);
                placed
            } else {
                j += 1;
                add_existing(&self.hunks[j - 1], last_hunk, shift)
            };
            match step {
                Err(e) => {
                    return Err(RangeFault::OutOfRange);
                },
                Ok(mut placed) => {
                    let ghost all = placed@;
                    last_hunk = placed.pop();
                    assert(placed@ =~= all.drop_last());
                    new_hunks.append(&mut placed);
                },
            }
        }
        match last_hunk {
            Some(l) => {
                new_hunks.push(l);
            },
            None => {},
        }
        self.hunks = new_hunks;
        self.commit_ids.push(commit_id);
        Ok(())
    }
}

/// The ranges of `hunks` that meet the `lines` lines from `start` on, in order.
pub fn find_in(hunks: &Vec<HunkRange>, start: i64, lines: i64) -> (found: Vec<HunkRange>)
    ensures
        found@ == intersecting(hunks@, start as int, lines as int),
{
    let mut found: Vec<HunkRange> = Vec::new();
    let mut k: usize = 0;
    let ghost meets = |h: HunkRange| h.intersects_spec(start as int, lines as int);
    proof {
        reveal(Seq::filter);
        assert(hunks@.take(0) =~= Seq::<HunkRange>::empty());
    }
    while k < hunks.len()
        invariant
            k <= hunks.len(),
            meets == |h: HunkRange| h.intersects_spec(start as int, lines as int),
            found@ == hunks@.take(k as int).filter(meets),
        decreases hunks.len() - k,
    {
        let h = hunks[k];
        proof {
            reveal(Seq::filter);
            assert(hunks@.take(k + 1).drop_last() =~= hunks@.take(k as int));
        }
        if h.meets(start, lines) {
            found.push(h);
        }
        k += 1;
    }
    assert(hunks@.take(k as int) =~= hunks@);
    found
}

impl Default for PathHunkRanges {
    fn default() -> (t: PathHunkRanges)
        ensures
            t.hunks@ == Seq::<HunkRange>::empty(),
            t.commit_ids@ == Seq::<ObjectId>::empty(),
    {
        PathHunkRanges::new()
    }
}

// ---------------------------------------------------------------------------
// Order of the table
// ---------------------------------------------------------------------------
/// Whether the ranges come by ascending start and none reaches into the
/// next; no range has a negative length.
pub open spec fn is_ordered(t: Seq<HunkRange>) -> bool {
    &&& forall|k: int| 0 <= k < t.len() ==> (#[trigger] t[k]).lines >= 0
    &&& forall|a: int, b: int|
        0 <= a < b < t.len() ==> (#[trigger] t[a]).start + t[a].lines <= (#[trigger] t[b]).start
}

/// Whether each diff replaces lines by as many lines, and at least one
/// untouched line lies between two diffs.
pub open spec fn rewrites_in_place(diffs: Seq<InputDiff>) -> bool {
    &&& forall|k: int|
        0 <= k < diffs.len() ==> {
            &&& (#[trigger] diffs[k]).old_lines >= 0
            &&& diffs[k].new_lines == diffs[k].old_lines
            &&& diffs[k].new_start == diffs[k].old_start
        }
    &&& forall|a: int, b: int|
        0 <= a < b < diffs.len() ==> (#[trigger] diffs[a]).old_start + diffs[a].old_lines
            < (#[trigger] diffs[b]).old_start
}

/// Whether the diff begins at or after the end of the range, or lies in it
/// past its first line.
pub open spec fn after_or_inside(d: InputDiff, h: HunkRange) -> bool {
    ||| h.start + h.lines <= d.old_start
    ||| (h.start < d.old_start && d.old_start + d.old_lines <= h.start + h.lines)
}

/// Whether the diff leaves the range whole: it ends before the range
/// begins, begins after it ends, or lies in it past its first line.
pub open spec fn respects(d: InputDiff, h: HunkRange) -> bool {
    ||| (d.old_start < h.start && d.old_start + d.old_lines <= h.start)
    ||| after_or_inside(d, h)
}

/// Whether every diff leaves every range of the table whole.
pub open spec fn diffs_respect(hunks: Seq<HunkRange>, diffs: Seq<InputDiff>) -> bool {
    forall|i: int, j: int|
        0 <= i < diffs.len() && 0 <= j < hunks.len() ==> respects(#[trigger] diffs[i], #[trigger] hunks[j])
}

proof fn lemma_ordered_push(t: Seq<HunkRange>, x: HunkRange)
    requires
        is_ordered(t),
        x.lines >= 0,
        t.len() > 0 ==> t.last().start + t.last().lines <= x.start,
    ensures
        is_ordered(t.push(x)),
{
    let u = t.push(x);
    assert forall|a: int, b: int| 0 <= a < b < u.len() implies (#[trigger] u[a]).start + u[a].lines
        <= (#[trigger] u[b]).start by {
        if b < t.len() {
            assert(t[a].start + t[a].lines <= t[b].start);
        } else if a < t.len() - 1 {
            assert(t[a].start + t[a].lines <= t[t.len() - 1].start);
            assert(t[t.len() - 1].lines >= 0);
        }
    }
}

/// What holds between the steps of a walk over diffs that rewrite in place.
spec fn walk_inv(
    hunks: Seq<HunkRange>,
    diffs: Seq<InputDiff>,
    i: int,
    j: int,
    last: Option<HunkRange>,
    out: Seq<HunkRange>,
) -> bool {
    &&& 0 <= i <= diffs.len()
    &&& 0 <= j <= hunks.len()
    &&& is_ordered(out)
    &&& match last {
        None => out.len() == 0,
        Some(l) => {
            &&& l.lines >= 0
            &&& out.len() > 0 ==> out.last().start + out.last().lines <= l.start
            &&& j < hunks.len() ==> l.start + l.lines <= hunks[j].start
            &&& forall|k: int| i <= k < diffs.len() ==> after_or_inside(#[trigger] diffs[k], l)
        },
    }
}

/// Whether `x` covers `lines` lines from `start` on.
spec fn spans(x: HunkRange, start: int, lines: int) -> bool {
    x.start == start && x.lines == lines
}

proof fn lemma_add_new_shape(d: InputDiff, l: HunkRange, stack_id: StackId, commit_id: ObjectId)
    requires
        d.old_lines >= 0,
        d.new_lines == d.old_lines,
        d.new_start == d.old_start,
        l.lines >= 0,
        after_or_inside(d, l),
        add_new_spec(d, Some(l), stack_id, commit_id) is Some,
    ensures
        ({
            let step = add_new_spec(d, Some(l), stack_id, commit_id)->0;
            ||| {
                &&& step.len() == 2
                &&& step[0] == l
                &&& spans(step[1], d.old_start as int, d.old_lines as int)
                &&& l.start + l.lines <= d.old_start
            }
            ||| {
                &&& step.len() == 3
                &&& spans(step[0], l.start as int, d.old_start - l.start)
                &&& l.start < d.old_start
                &&& spans(step[1], d.old_start as int, d.old_lines as int)
                &&& spans(
                    step[2],
                    d.old_start + d.old_lines,
                    l.start + l.lines - d.old_start - d.old_lines,
                )
                &&& step[2].lines >= 0
            }
        }),
{
    let fresh = made(stack_id, commit_id, d.new_start as int, d.new_lines as int, d.net());
    if l.end_spec() >= d.old_start && l.contains_spec(d.old_start as int, d.old_lines as int) {
        let above = made(l.stack_id, l.commit_id, l.start as int, d.new_start - l.start, 0);
        let below = made(
            l.stack_id,
            l.commit_id,
            d.new_start + d.new_lines,
            l.start + l.lines - (d.new_start + d.new_lines),
            l.line_shift as int,
        );
        let parts = seq![above, fresh, below];
        assert(parts[0] is Some && parts[1] is Some && parts[2] is Some);
    } else {
        let parts = seq![Some(l), fresh];
        assert(parts[0] is Some && parts[1] is Some);
    }
}

proof fn lemma_add_existing_shape(h: HunkRange, l: HunkRange)
    requires
        h.lines >= 0,
        l.lines >= 0,
        l.start + l.lines <= h.start,
        add_existing_spec(h, Some(l), 0) is Some,
    ensures
        ({
            let step = add_existing_spec(h, Some(l), 0)->0;
            ||| (step.len() == 1 && step[0] == l)
            ||| (step.len() == 2 && step[0] == l && spans(step[1], h.start as int, h.lines as int))
        }),
{
    if h.start > l.start + l.lines {
        let parts = seq![
            Some(l),
            made(h.stack_id, h.commit_id, h.start + 0, h.lines as int, h.line_shift as int),
        ];
        assert(parts[0] is Some && parts[1] is Some);
    } else if l.contains_spec(h.start as int, h.lines as int) {
    } else {
        let parts = seq![
            Some(l),
            made(
                h.stack_id,
                h.commit_id,
                h.start + 0,
                h.lines - (l.start + l.lines - h.start),
                h.line_shift as int,
            ),
        ];
        assert(parts[0] is Some && parts[1] is Some);
    }
}

proof fn lemma_diff_step(
    hunks: Seq<HunkRange>,
    diffs: Seq<InputDiff>,
    i: int,
    j: int,
    last: Option<HunkRange>,
    out: Seq<HunkRange>,
    stack_id: StackId,
    commit_id: ObjectId,
)
    requires
        is_ordered(hunks),
        rewrites_in_place(diffs),
        diffs_respect(hunks, diffs),
        walk_inv(hunks, diffs, i, j, last, out),
        takes_diff(hunks, diffs, i, j),
        add_new_spec(diffs[i], last, stack_id, commit_id) is Some,
    ensures
        ({
            let step = add_new_spec(diffs[i], last, stack_id, commit_id)->0;
            step.len() > 0 && walk_inv(hunks, diffs, i + 1, j, Some(step.last()), out + step.drop_last())
        }),
{
    let d = diffs[i];
    let step = add_new_spec(d, last, stack_id, commit_id)->0;
    let next_out = out + step.drop_last();
    assert forall|k: int| i + 1 <= k < diffs.len() implies d.old_start + d.old_lines
        < (#[trigger] diffs[k]).old_start by {
        assert(diffs[i].old_start + diffs[i].old_lines < diffs[k].old_start);
    }
    if j < hunks.len() {
        assert(respects(diffs[i], hunks[j]));
    }
    match last {
        None => {
            let parts = seq![made(stack_id, commit_id, d.new_start as int, d.new_lines as int, d.net())];
            assert(parts[0] is Some);
            assert(step.len() == 1);
            assert(spans(step[0], d.old_start as int, d.old_lines as int));
            assert(next_out =~= out);
        },
        Some(l) => {
            assert(after_or_inside(diffs[i], l));
            lemma_add_new_shape(d, l, stack_id, commit_id);
            if step.len() == 2 {
                assert(next_out =~= out.push(l));
                lemma_ordered_push(out, l);
            } else {
                assert(next_out =~= out.push(step[0]).push(step[1]));
                lemma_ordered_push(out, step[0]);
                lemma_ordered_push(out.push(step[0]), step[1]);
                assert forall|k: int| i + 1 <= k < diffs.len() implies after_or_inside(
                    #[trigger] diffs[k],
                    step[2],
                ) by {
                    assert(after_or_inside(diffs[k], l));
                }
            }
        },
    }
}

proof fn lemma_hunk_step(
    hunks: Seq<HunkRange>,
    diffs: Seq<InputDiff>,
    i: int,
    j: int,
    last: Option<HunkRange>,
    out: Seq<HunkRange>,
)
    requires
        is_ordered(hunks),
        rewrites_in_place(diffs),
        diffs_respect(hunks, diffs),
        walk_inv(hunks, diffs, i, j, last, out),
        j < hunks.len(),
        !takes_diff(hunks, diffs, i, j),
        add_existing_spec(hunks[j], last, 0) is Some,
    ensures
        ({
            let step = add_existing_spec(hunks[j], last, 0)->0;
            step.len() > 0 && walk_inv(hunks, diffs, i, j + 1, Some(step.last()), out + step.drop_last())
        }),
{
    let h = hunks[j];
    let step = add_existing_spec(h, last, 0)->0;
    let next_out = out + step.drop_last();
    assert(h.lines >= 0);
    if j + 1 < hunks.len() {
        assert(hunks[j].start + hunks[j].lines <= hunks[j + 1].start);
    }
    assert forall|k: int| i <= k < diffs.len() implies after_or_inside(#[trigger] diffs[k], h) by {
        assert(respects(diffs[k], hunks[j]));
        if i < k {
            assert(diffs[i].old_start + diffs[i].old_lines < diffs[k].old_start);
        }
        assert(diffs[i].old_start >= h.start);
    }
    match last {
        None => {
            assert(next_out =~= out);
        },
        Some(l) => {
            lemma_add_existing_shape(h, l);
            if step.len() == 1 {
                assert(next_out =~= out);
            } else {
                assert(next_out =~= out.push(l));
                lemma_ordered_push(out, l);
            }
        },
    }
}

proof fn lemma_walk_keeps_order(
    hunks: Seq<HunkRange>,
    diffs: Seq<InputDiff>,
    i: int,
    j: int,
    last: Option<HunkRange>,
    out: Seq<HunkRange>,
    stack_id: StackId,
    commit_id: ObjectId,
)
    requires
        is_ordered(hunks),
        rewrites_in_place(diffs),
        diffs_respect(hunks, diffs),
        walk_inv(hunks, diffs, i, j, last, out),
        merge_from(hunks, diffs, i, j, 0, last, out, stack_id, commit_id) is Some,
    ensures
        is_ordered(merge_from(hunks, diffs, i, j, 0, last, out, stack_id, commit_id)->0),
    decreases steps_left(hunks, diffs, i, j),
{
    if i >= diffs.len() && j >= hunks.len() {
        match last {
            Some(l) => {
                lemma_ordered_push(out, l);
            },
            None => {},
        }
    } else if takes_diff(hunks, diffs, i, j) {
        let step = add_new_spec(diffs[i], last, stack_id, commit_id)->0;
        assert(diffs[i].net() == 0);
        lemma_diff_step(hunks, diffs, i, j, last, out, stack_id, commit_id);
        lemma_walk_keeps_order(
            hunks,
            diffs,
            i + 1,
            j,
            Some(step.last()),
            out + step.drop_last(),
            stack_id,
            commit_id,
        );
    } else {
        let step = add_existing_spec(hunks[j], last, 0)->0;
        lemma_hunk_step(hunks, diffs, i, j, last, out);
        lemma_walk_keeps_order(
            hunks,
            diffs,
            i,
            j + 1,
            Some(step.last()),
            out + step.drop_last(),
            stack_id,
            commit_id,
        );
    }
}

/// Folding a commit into an ordered table gives an ordered table, where the
/// commit's diffs rewrite lines in place and leave the ranges of the table
/// whole.
pub proof fn lemma_add_keeps_order(
    hunks: Seq<HunkRange>,
    diffs: Seq<InputDiff>,
    stack_id: StackId,
    commit_id: ObjectId,
)
    requires
        is_ordered(hunks),
        rewrites_in_place(diffs),
        diffs_respect(hunks, diffs),
        merged(hunks, diffs, stack_id, commit_id) is Some,
    ensures
        is_ordered(merged(hunks, diffs, stack_id, commit_id)->0),
{
    lemma_walk_keeps_order(hunks, diffs, 0, 0, None, Seq::empty(), stack_id, commit_id);
}

/// Where a range that was placed begins, and where it ends: the line
/// behind its last.
pub ghost struct Span {
    pub start: int,
    pub end: int,
}

/// Whether the diff `d` lies in the span `l`, past its first line; then
/// the range of the span is split around it.
pub open spec fn lies_in(d: InputDiff, l: Span) -> bool {
    l.start < d.old_start < l.end && d.old_start + d.old_lines <= l.end
}

/// Whether the range `h` of the table lies in the span `l`, past its
/// first line; then the range is dropped.
pub open spec fn is_covered(h: HunkRange, l: Span) -> bool {
    h.start <= l.end && l.start < h.start && h.start + h.lines <= l.end
}

/// Whether the diff `d` fits behind what was placed last, which spans
/// `last`: its new lines are no fewer than none, and they begin at or
/// behind the end of the span or, where the diff lies in the span, they
/// lie in it too.
pub open spec fn diff_fits(d: InputDiff, last: Option<Span>) -> bool {
    &&& d.new_lines >= 0
    &&& match last {
        None => true,
        Some(l) => if lies_in(d, l) {
            l.start <= d.new_start && d.new_start + d.new_lines <= l.end
        } else {
            l.end <= d.new_start
        },
    }
}

/// The span of what is placed last once the diff `d` is placed: its new
/// lines, or, where it lies in the span `last`, what is left of that span
/// behind them.
pub open spec fn span_after_diff(d: InputDiff, last: Option<Span>) -> Span {
    if last is Some && lies_in(d, last->0) {
        Span { start: d.new_start + d.new_lines, end: last->0.end }
    } else {
        Span { start: d.new_start as int, end: d.new_start + d.new_lines }
    }
}

/// Whether the range `h` of the table fits behind what was placed last,
/// which spans `last`, when it moves by `shift` lines: unless it is
/// dropped, it comes to begin at or behind the end of the span, and what
/// is left of it, where the span reaches into it, is no less than nothing.
pub open spec fn range_fits(h: HunkRange, last: Option<Span>, shift: int) -> bool {
    match last {
        None => h.lines >= 0,
        Some(l) => if h.start > l.end {
            h.lines >= 0 && l.end <= h.start + shift
        } else if is_covered(h, l) {
            true
        } else {
            h.lines - (l.end - h.start) >= 0 && l.end <= h.start + shift
        },
    }
}

/// The span of what is placed last once the range `h` of the table is
/// placed, moved by `shift` lines.
pub open spec fn span_after_range(h: HunkRange, last: Option<Span>, shift: int) -> Span {
    match last {
        None => Span { start: h.start as int, end: h.start + h.lines },
        Some(l) => if h.start > l.end {
            Span { start: h.start + shift, end: h.start + shift + h.lines }
        } else if is_covered(h, l) {
            l
        } else {
            Span { start: h.start + shift, end: h.start + shift + h.lines - (l.end - h.start) }
        },
    }
}

/// Whether, from the state of the walk after `i` diffs and `j` ranges on,
/// each diff and each range fits behind what is placed before it, `shift`
/// being the lines that the commit added so far and `last` the span of
/// what was placed last: see [`diff_fits`] and [`range_fits`]. The walk
/// compares where a diff or a range stood with where the one before it
/// came to stand; this says of the inputs when that goes well.
pub open spec fn fits_from(
    hunks: Seq<HunkRange>,
    diffs: Seq<InputDiff>,
    i: int,
    j: int,
    shift: int,
    last: Option<Span>,
) -> bool
    decreases steps_left(hunks, diffs, i, j),
{
    if i >= diffs.len() && j >= hunks.len() {
        true
    } else if takes_diff(hunks, diffs, i, j) {
        diff_fits(diffs[i], last) && fits_from(
            hunks,
            diffs,
            i + 1,
            j,
            shift + diffs[i].net(),
            Some(span_after_diff(diffs[i], last)),
        )
    } else {
        range_fits(hunks[j], last, shift) && fits_from(
            hunks,
            diffs,
            i,
            j + 1,
            shift,
            Some(span_after_range(hunks[j], last, shift)),
        )
    }
}

/// Whether the diffs of a commit fit into a table: each diff and each
/// range fits behind what the walk places before it. This holds of a diff
/// that adds or removes lines between two ranges where the ranges that
/// follow have room to move, and of a diff in a range whose new lines lie
/// in the range; it fails where a diff begins with a range, reaches over
/// the end of one, or moves a range onto another.
pub open spec fn fits(hunks: Seq<HunkRange>, diffs: Seq<InputDiff>) -> bool {
    fits_from(hunks, diffs, 0, 0, 0, None)
}

/// Whether `last` spans the range `l`.
spec fn spans_as(l: Option<HunkRange>, last: Option<Span>) -> bool {
    match l {
        None => last is None,
        Some(l) => last == Some(Span { start: l.start as int, end: l.start + l.lines }),
    }
}

proof fn lemma_walk_fits(
    hunks: Seq<HunkRange>,
    diffs: Seq<InputDiff>,
    i: int,
    j: int,
    shift: int,
    span: Option<Span>,
    last: Option<HunkRange>,
    out: Seq<HunkRange>,
    stack_id: StackId,
    commit_id: ObjectId,
)
    requires
        0 <= i <= diffs.len(),
        0 <= j <= hunks.len(),
        fits_from(hunks, diffs, i, j, shift, span),
        is_ordered(out),
        spans_as(last, span),
        match last {
            None => out.len() == 0,
            Some(l) => l.lines >= 0 && (out.len() > 0 ==> out.last().start + out.last().lines <= l.start),
        },
        merge_from(hunks, diffs, i, j, shift, last, out, stack_id, commit_id) is Some,
    ensures
        is_ordered(merge_from(hunks, diffs, i, j, shift, last, out, stack_id, commit_id)->0),
    decreases steps_left(hunks, diffs, i, j),
{
    if i >= diffs.len() && j >= hunks.len() {
        match last {
            Some(l) => {
                lemma_ordered_push(out, l);
            },
            None => {},
        }
    } else if takes_diff(hunks, diffs, i, j) {
        let d = diffs[i];
        let step = add_new_spec(d, last, stack_id, commit_id)->0;
        let fresh = made(stack_id, commit_id, d.new_start as int, d.new_lines as int, d.net());
        match last {
            None => {
                assert(step =~= seq![fresh->0]);
                assert(out + step.drop_last() =~= out);
            },
            Some(l) => {
                if lies_in(d, span->0) {
                    assert(l.end_spec() >= d.old_start && l.contains_spec(d.old_start as int, d.old_lines as int));
                    assert(step.len() == 3);
                    let above = step[0];
                    assert(above.start == l.start && above.lines == d.new_start - l.start);
                    assert(step[1] == fresh->0);
                    assert(step[2].start == d.new_start + d.new_lines && step[2].lines == l.start + l.lines - (d.new_start
                        + d.new_lines));
                    assert(out + step.drop_last() =~= out.push(above).push(fresh->0));
                    lemma_ordered_push(out, above);
                    lemma_ordered_push(out.push(above), fresh->0);
                } else {
                    assert(!(l.end_spec() >= d.old_start && l.contains_spec(d.old_start as int, d.old_lines as int)));
                    assert(step =~= seq![l, fresh->0]);
                    assert(out + step.drop_last() =~= out.push(l));
                    lemma_ordered_push(out, l);
                }
            },
        }
        lemma_walk_fits(
            hunks,
            diffs,
            i + 1,
            j,
            shift + d.net(),
            Some(span_after_diff(d, span)),
            Some(step.last()),
            out + step.drop_last(),
            stack_id,
            commit_id,
        );
    } else {
        let h = hunks[j];
        let step = add_existing_spec(h, last, shift)->0;
        match last {
            None => {
                assert(step =~= seq![h]);
                assert(out + step.drop_last() =~= out);
            },
            Some(l) => {
                if h.start > l.start + l.lines {
                    assert(step.len() == 2 && step[0] == l);
                    assert(step[1].start == h.start + shift && step[1].lines == h.lines);
                    assert(out + step.drop_last() =~= out.push(l));
                    lemma_ordered_push(out, l);
                } else if l.contains_spec(h.start as int, h.lines as int) {
                    assert(is_covered(h, span->0));
                    assert(step =~= seq![l]);
                    assert(out + step.drop_last() =~= out);
                } else {
                    assert(!is_covered(h, span->0));
                    assert(step.len() == 2 && step[0] == l);
                    assert(step[1].start == h.start + shift && step[1].lines == h.lines - (l.start + l.lines - h.start));
                    assert(out + step.drop_last() =~= out.push(l));
                    lemma_ordered_push(out, l);
                }
            },
        }
        lemma_walk_fits(
            hunks,
            diffs,
            i,
            j + 1,
            shift,
            Some(span_after_range(h, span, shift)),
            Some(step.last()),
            out + step.drop_last(),
            stack_id,
            commit_id,
        );
    }
}

/// What the walk has placed for good stays where it is, and what was
/// placed last stays behind it, whole or as the part above a diff that
/// lies in it.
proof fn lemma_merge_shape(
    hunks: Seq<HunkRange>,
    diffs: Seq<InputDiff>,
    i: int,
    j: int,
    shift: int,
    last: Option<HunkRange>,
    out: Seq<HunkRange>,
    stack_id: StackId,
    commit_id: ObjectId,
)
    requires
        0 <= i <= diffs.len(),
        0 <= j <= hunks.len(),
        merge_from(hunks, diffs, i, j, shift, last, out, stack_id, commit_id) is Some,
    ensures
        ({
            let r = merge_from(hunks, diffs, i, j, shift, last, out, stack_id, commit_id)->0;
            &&& r.len() >= out.len()
            &&& r.take(out.len() as int) == out
            &&& last is Some ==> r.len() > out.len() && r[out.len() as int].start == last->0.start && (r[out.len() as int]
                == last->0 || (last->0.lines > 0 && i < diffs.len()))
        }),
    decreases steps_left(hunks, diffs, i, j),
{
    let r = merge_from(hunks, diffs, i, j, shift, last, out, stack_id, commit_id)->0;
    if i >= diffs.len() && j >= hunks.len() {
        match last {
            Some(l) => {
                assert(out.push(l).take(out.len() as int) =~= out);
            },
            None => {
                assert(out.take(out.len() as int) =~= out);
            },
        }
    } else if takes_diff(hunks, diffs, i, j) {
        let d = diffs[i];
        let step = add_new_spec(d, last, stack_id, commit_id)->0;
        let next = out + step.drop_last();
        lemma_merge_shape(hunks, diffs, i + 1, j, shift + d.net(), Some(step.last()), next, stack_id, commit_id);
        assert(r.take(out.len() as int) =~= r.take(next.len() as int).take(out.len() as int));
        assert(next.take(out.len() as int) =~= out);
        match last {
            Some(l) => {
                assert(next[out.len() as int] == step[0]);
                assert(r.take(next.len() as int)[out.len() as int] == r[out.len() as int]);
            },
            None => {},
        }
    } else {
        let h = hunks[j];
        let step = add_existing_spec(h, last, shift)->0;
        let next = out + step.drop_last();
        lemma_merge_shape(hunks, diffs, i, j + 1, shift, Some(step.last()), next, stack_id, commit_id);
        assert(r.take(out.len() as int) =~= r.take(next.len() as int).take(out.len() as int));
        assert(next.take(out.len() as int) =~= out);
        match last {
            Some(l) => {
                if step.len() == 2 {
                    assert(next[out.len() as int] == step[0]);
                    assert(r.take(next.len() as int)[out.len() as int] == r[out.len() as int]);
                } else {
                    assert(step =~= seq![l]);
                    assert(next =~= out);
                }
            },
            None => {},
        }
    }
}

#[verifier::rlimit(60)]
proof fn lemma_walk_fits_back(
    hunks: Seq<HunkRange>,
    diffs: Seq<InputDiff>,
    i: int,
    j: int,
    shift: int,
    span: Option<Span>,
    last: Option<HunkRange>,
    out: Seq<HunkRange>,
    stack_id: StackId,
    commit_id: ObjectId,
)
    requires
        0 <= i <= diffs.len(),
        0 <= j <= hunks.len(),
        spans_as(last, span),
        merge_from(hunks, diffs, i, j, shift, last, out, stack_id, commit_id) is Some,
        is_ordered(merge_from(hunks, diffs, i, j, shift, last, out, stack_id, commit_id)->0),
    ensures
        fits_from(hunks, diffs, i, j, shift, span),
    decreases steps_left(hunks, diffs, i, j),
{
    let r = merge_from(hunks, diffs, i, j, shift, last, out, stack_id, commit_id)->0;
    let at = out.len() as int;
    if i >= diffs.len() && j >= hunks.len() {
    } else if takes_diff(hunks, diffs, i, j) {
        let d = diffs[i];
        let step = add_new_spec(d, last, stack_id, commit_id)->0;
        let next = out + step.drop_last();
        let fresh = made(stack_id, commit_id, d.new_start as int, d.new_lines as int, d.net())->0;
        lemma_merge_shape(hunks, diffs, i + 1, j, shift + d.net(), Some(step.last()), next, stack_id, commit_id);
        assert forall|k: int| 0 <= k < next.len() implies r[k] == next[k] by {
            assert(r.take(next.len() as int)[k] == r[k]);
        }
        match last {
            None => {
                assert(step =~= seq![fresh]);
                assert(next =~= out);
                assert(r[at].lines >= 0);
            },
            Some(l) => {
                if lies_in(d, span->0) {
                    assert(l.end_spec() >= d.old_start && l.contains_spec(d.old_start as int, d.old_lines as int));
                    assert(step.len() == 3);
                    assert(step[0].start == l.start && step[0].lines == d.new_start - l.start);
                    assert(step[1] == fresh);
                    assert(step[2].start == d.new_start + d.new_lines && step[2].lines == l.start + l.lines - (d.new_start
                        + d.new_lines));
                    assert(next.len() == at + 2 && next[at] == step[0] && next[at + 1] == step[1]);
                    assert(r[at].lines >= 0 && r[at + 1].lines >= 0 && r[at + 2].lines >= 0);
                } else {
                    assert(!(l.end_spec() >= d.old_start && l.contains_spec(d.old_start as int, d.old_lines as int)));
                    assert(step =~= seq![l, fresh]);
                    assert(next.len() == at + 1 && next[at] == l);
                    assert(r[at].start + r[at].lines <= r[at + 1].start);
                    assert(r[at + 1].lines >= 0);
                }
            },
        }
        lemma_walk_fits_back(
            hunks,
            diffs,
            i + 1,
            j,
            shift + d.net(),
            Some(span_after_diff(d, span)),
            Some(step.last()),
            next,
            stack_id,
            commit_id,
        );
    } else {
        let h = hunks[j];
        let step = add_existing_spec(h, last, shift)->0;
        let next = out + step.drop_last();
        lemma_merge_shape(hunks, diffs, i, j + 1, shift, Some(step.last()), next, stack_id, commit_id);
        assert forall|k: int| 0 <= k < next.len() implies r[k] == next[k] by {
            assert(r.take(next.len() as int)[k] == r[k]);
        }
        match last {
            None => {
                assert(step =~= seq![h]);
                assert(next =~= out);
                assert(r[at].lines >= 0);
            },
            Some(l) => {
                if h.start > l.start + l.lines {
                    assert(step.len() == 2 && step[0] == l);
                    assert(step[1].start == h.start + shift && step[1].lines == h.lines);
                    assert(next.len() == at + 1 && next[at] == l);
                    assert(r[at].start + r[at].lines <= r[at + 1].start);
                    assert(r[at + 1].lines >= 0);
                } else if l.contains_spec(h.start as int, h.lines as int) {
                    assert(is_covered(h, span->0));
                    assert(step =~= seq![l]);
                    assert(next =~= out);
                } else {
                    assert(!is_covered(h, span->0));
                    assert(step.len() == 2 && step[0] == l);
                    assert(step[1].start == h.start + shift && step[1].lines == h.lines - (l.start + l.lines - h.start));
                    assert(next.len() == at + 1 && next[at] == l);
                    assert(r[at].start + r[at].lines <= r[at + 1].start);
                    assert(r[at + 1].lines >= 0);
                }
            },
        }
        lemma_walk_fits_back(
            hunks,
            diffs,
            i,
            j + 1,
            shift,
            Some(span_after_range(h, span, shift)),
            Some(step.last()),
            next,
            stack_id,
            commit_id,
        );
    }
}

/// Whether the ranges come by ascending start, none reaches into the
/// next, and each has a line.
pub open spec fn is_strictly_ordered(t: Seq<HunkRange>) -> bool {
    &&& forall|k: int| 0 <= k < t.len() ==> (#[trigger] t[k]).lines > 0
    &&& forall|a: int, b: int|
        0 <= a < b < t.len() ==> (#[trigger] t[a]).start + t[a].lines <= (#[trigger] t[b]).start
}

proof fn lemma_walk_to(
    hunks: Seq<HunkRange>,
    diffs: Seq<InputDiff>,
    k: int,
    stack_id: StackId,
    commit_id: ObjectId,
)
    requires
        is_strictly_ordered(hunks),
        diffs.len() == 1,
        1 <= k <= hunks.len(),
        hunks[k - 1].start < diffs[0].old_start,
    ensures
        merged(hunks, diffs, stack_id, commit_id) == merge_from(
            hunks,
            diffs,
            0,
            k,
            0,
            Some(hunks[k - 1]),
            hunks.take(k - 1),
            stack_id,
            commit_id,
        ),
    decreases k,
{
    let h = hunks[k - 1];
    assert(!takes_diff(hunks, diffs, 0, k - 1)) by {
        if k >= 2 {
            assert(hunks[0].start + hunks[0].lines <= hunks[k - 1].start);
        }
    }
    if k == 1 {
        let step = add_existing_spec(h, None, 0)->0;
        assert(step =~= seq![h]);
        assert(Seq::<HunkRange>::empty() + step.drop_last() =~= hunks.take(0));
    } else {
        let l = hunks[k - 2];
        assert(l.start + l.lines <= h.start);
        lemma_walk_to(hunks, diffs, k - 1, stack_id, commit_id);
        let step = add_existing_spec(h, Some(l), 0)->0;
        assert(!l.contains_spec(h.start as int, h.lines as int));
        assert(made(h.stack_id, h.commit_id, h.start + 0, h.lines as int, h.line_shift as int) == Some(h));
        if !(h.start > l.start + l.lines) {
            assert(l.start + l.lines == h.start);
            assert(made(
                h.stack_id,
                h.commit_id,
                h.start + 0,
                h.lines - (l.start + l.lines - h.start),
                h.line_shift as int,
            ) == Some(h));
        }
        assert(add_existing_spec(h, Some(l), 0) is Some);
        assert(step =~= seq![l, h]);
        assert(hunks.take(k - 2) + step.drop_last() =~= hunks.take(k - 1));
    }
}

/// A diff that lies in a range of the table, past its first line, splits
/// the range in three, where the commit has this one diff and the ranges
/// of the table are in order and have a line each: what comes before the
/// range stays; then come the part of the range above the diff, which
/// keeps its owner and shifts nothing, the new lines, which the commit
/// owns, and the part below, which keeps its owner and its shift.
pub proof fn lemma_split_in_three(
    hunks: Seq<HunkRange>,
    d: InputDiff,
    j: int,
    stack_id: StackId,
    commit_id: ObjectId,
)
    requires
        is_strictly_ordered(hunks),
        0 <= j < hunks.len(),
        lies_in(d, Span { start: hunks[j].start as int, end: hunks[j].start + hunks[j].lines }),
        merged(hunks, seq![d], stack_id, commit_id) is Some,
    ensures
        ({
            let r = merged(hunks, seq![d], stack_id, commit_id)->0;
            let l = hunks[j];
            &&& r.len() >= j + 3
            &&& r.take(j) == hunks.take(j)
            &&& Some(r[j]) == made(l.stack_id, l.commit_id, l.start as int, d.new_start - l.start, 0)
            &&& Some(r[j + 1]) == made(stack_id, commit_id, d.new_start as int, d.new_lines as int, d.net())
            &&& Some(r[j + 2]) == made(
                l.stack_id,
                l.commit_id,
                d.new_start + d.new_lines,
                l.start + l.lines - (d.new_start + d.new_lines),
                l.line_shift as int,
            )
        }),
{
    let diffs = seq![d];
    let l = hunks[j];
    let r = merged(hunks, diffs, stack_id, commit_id)->0;
    lemma_walk_to(hunks, diffs, j + 1, stack_id, commit_id);
    assert(takes_diff(hunks, diffs, 0, j + 1)) by {
        if j + 1 < hunks.len() {
            assert(hunks[j].start + hunks[j].lines <= hunks[j + 1].start);
        }
    }
    let step = add_new_spec(d, Some(l), stack_id, commit_id)->0;
    assert(l.end_spec() >= d.old_start && l.contains_spec(d.old_start as int, d.old_lines as int));
    assert(step.len() == 3);
    let next = hunks.take(j) + step.drop_last();
    lemma_merge_shape(hunks, diffs, 1, j + 1, d.net(), Some(step.last()), next, stack_id, commit_id);
    assert(next.len() == j + 2 && next[j] == step[0] && next[j + 1] == step[1]);
    assert(r.take(j + 2)[j] == r[j] && r.take(j + 2)[j + 1] == r[j + 1]);
    assert(r.take(j) =~= r.take(j + 2).take(j));
    assert(next.take(j) =~= hunks.take(j));
}

/// The range that the diff `d` of the commit `commit_id` gives: its new
/// lines, which shift what follows by the lines it adds.
pub open spec fn range_of_diff(d: InputDiff, stack_id: StackId, commit_id: ObjectId) -> Option<HunkRange> {
    made(stack_id, commit_id, d.new_start as int, d.new_lines as int, d.net())
}

/// The ranges that the first `n` of the diffs give, in their order.
pub open spec fn ranges_of_diffs(diffs: Seq<InputDiff>, n: int, stack_id: StackId, commit_id: ObjectId) -> Seq<
    HunkRange,
> {
    Seq::new(n as nat, |k: int| range_of_diff(diffs[k], stack_id, commit_id)->0)
}

/// The ranges among `t` that the commit `commit_id` owns, in their order.
pub open spec fn owned_by(t: Seq<HunkRange>, commit_id: ObjectId) -> Seq<HunkRange> {
    t.filter(|h: HunkRange| h.commit_id == commit_id)
}

/// Whether no diff lies in the new lines of the diff before it.
pub open spec fn diffs_lie_apart(diffs: Seq<InputDiff>) -> bool {
    forall|k: int|
        0 < k < diffs.len() ==> !lies_in(
            #[trigger] diffs[k],
            Span { start: diffs[k - 1].new_start as int, end: diffs[k - 1].new_start + diffs[k - 1].new_lines },
        )
}

proof fn lemma_owned_push(t: Seq<HunkRange>, x: HunkRange, commit_id: ObjectId)
    ensures
        owned_by(t.push(x), commit_id) == if x.commit_id == commit_id {
            owned_by(t, commit_id).push(x)
        } else {
            owned_by(t, commit_id)
        },
{
    reveal(Seq::filter);
    assert(t.push(x).drop_last() =~= t);
}

proof fn lemma_walk_owns(
    hunks: Seq<HunkRange>,
    diffs: Seq<InputDiff>,
    i: int,
    j: int,
    shift: int,
    last: Option<HunkRange>,
    out: Seq<HunkRange>,
    stack_id: StackId,
    commit_id: ObjectId,
)
    requires
        0 <= i <= diffs.len(),
        0 <= j <= hunks.len(),
        forall|k: int| 0 <= k < hunks.len() ==> (#[trigger] hunks[k]).commit_id != commit_id,
        diffs_lie_apart(diffs),
        merge_from(hunks, diffs, i, j, shift, last, out, stack_id, commit_id) is Some,
        last is Some && last->0.commit_id == commit_id ==> i > 0 && Some(last->0) == range_of_diff(
            diffs[i - 1],
            stack_id,
            commit_id,
        ),
        owned_by(
            match last {
                Some(l) => out.push(l),
                None => out,
            },
            commit_id,
        ) == ranges_of_diffs(diffs, i, stack_id, commit_id),
    ensures
        owned_by(merge_from(hunks, diffs, i, j, shift, last, out, stack_id, commit_id)->0, commit_id) == ranges_of_diffs(
            diffs,
            diffs.len() as int,
            stack_id,
            commit_id,
        ),
    decreases steps_left(hunks, diffs, i, j),
{
    if i >= diffs.len() && j >= hunks.len() {
    } else if takes_diff(hunks, diffs, i, j) {
        let d = diffs[i];
        let step = add_new_spec(d, last, stack_id, commit_id)->0;
        let fresh = range_of_diff(d, stack_id, commit_id)->0;
        let next = out + step.drop_last();
        assert(ranges_of_diffs(diffs, i + 1, stack_id, commit_id) =~= ranges_of_diffs(
            diffs,
            i,
            stack_id,
            commit_id,
        ).push(fresh));
        match last {
            None => {
                assert(step =~= seq![fresh]);
                assert(next =~= out);
                lemma_owned_push(out, fresh, commit_id);
            },
            Some(l) => {
                if l.end_spec() >= d.old_start && l.contains_spec(d.old_start as int, d.old_lines as int) {
                    assert(lies_in(d, Span { start: l.start as int, end: l.start + l.lines }));
                    if l.commit_id == commit_id {
                        assert(l.start == diffs[i - 1].new_start && l.lines == diffs[i - 1].new_lines);
                        assert(false);
                    }
                    assert(step.len() == 3);
                    assert(step[0].commit_id == l.commit_id && step[2].commit_id == l.commit_id);
                    assert(step[1] == fresh);
                    assert(next =~= out.push(step[0]).push(fresh));
                    lemma_owned_push(out, l, commit_id);
                    lemma_owned_push(out, step[0], commit_id);
                    lemma_owned_push(out.push(step[0]), fresh, commit_id);
                    lemma_owned_push(next, step[2], commit_id);
                } else {
                    assert(step =~= seq![l, fresh]);
                    assert(next =~= out.push(l));
                    lemma_owned_push(next, fresh, commit_id);
                }
            },
        }
        lemma_walk_owns(hunks, diffs, i + 1, j, shift + d.net(), Some(step.last()), next, stack_id, commit_id);
    } else {
        let h = hunks[j];
        let step = add_existing_spec(h, last, shift)->0;
        let next = out + step.drop_last();
        match last {
            None => {
                assert(step =~= seq![h]);
                assert(next =~= out);
                lemma_owned_push(out, h, commit_id);
            },
            Some(l) => {
                if step.len() == 2 {
                    assert(step[0] == l && step[1].commit_id == h.commit_id);
                    assert(next =~= out.push(l));
                    lemma_owned_push(next, step[1], commit_id);
                } else {
                    assert(step =~= seq![l]);
                    assert(next =~= out);
                }
            },
        }
        lemma_walk_owns(hunks, diffs, i, j + 1, shift, Some(step.last()), next, stack_id, commit_id);
    }
}

/// The ranges that a commit owns once it is folded in are the ranges of
/// its diffs, one for each diff and in their order, where the table held
/// no range of the commit and no diff lies in the new lines of the diff
/// before it.
pub proof fn lemma_commit_owns_its_diffs(
    hunks: Seq<HunkRange>,
    diffs: Seq<InputDiff>,
    stack_id: StackId,
    commit_id: ObjectId,
)
    requires
        forall|k: int| 0 <= k < hunks.len() ==> (#[trigger] hunks[k]).commit_id != commit_id,
        diffs_lie_apart(diffs),
        merged(hunks, diffs, stack_id, commit_id) is Some,
    ensures
        owned_by(merged(hunks, diffs, stack_id, commit_id)->0, commit_id) == ranges_of_diffs(
            diffs,
            diffs.len() as int,
            stack_id,
            commit_id,
        ),
{
    reveal(Seq::filter);
    assert(owned_by(Seq::<HunkRange>::empty(), commit_id) =~= ranges_of_diffs(diffs, 0, stack_id, commit_id));
    lemma_walk_owns(hunks, diffs, 0, 0, 0, None, Seq::empty(), stack_id, commit_id);
}

/// The diffs of a commit fit into a table wherever folding the commit in
/// gives an ordered table: order fails on every other fold.
pub proof fn lemma_order_needs_fit(
    hunks: Seq<HunkRange>,
    diffs: Seq<InputDiff>,
    stack_id: StackId,
    commit_id: ObjectId,
)
    requires
        merged(hunks, diffs, stack_id, commit_id) is Some,
        is_ordered(merged(hunks, diffs, stack_id, commit_id)->0),
    ensures
        fits(hunks, diffs),
{
    lemma_walk_fits_back(hunks, diffs, 0, 0, 0, None, None, Seq::empty(), stack_id, commit_id);
}

/// Folding a commit into a table gives an ordered table where the diffs
/// of the commit fit into the table, whatever lines they add or remove:
/// the ranges come by ascending start, none reaches into the next, and
/// none has a negative length.
pub proof fn lemma_add_keeps_order_where_fits(
    hunks: Seq<HunkRange>,
    diffs: Seq<InputDiff>,
    stack_id: StackId,
    commit_id: ObjectId,
)
    requires
        fits(hunks, diffs),
        merged(hunks, diffs, stack_id, commit_id) is Some,
    ensures
        is_ordered(merged(hunks, diffs, stack_id, commit_id)->0),
{
    lemma_walk_fits(hunks, diffs, 0, 0, 0, None, None, Seq::empty(), stack_id, commit_id);
}

} // verus!
