//! The range index of the whole workspace.
//!
//! Each stack is folded into range tables of its own, commit by commit. The
//! workspace applies all stacks at once, so for each path the tables of the
//! stacks are combined into one list in the line numbers of the workspace:
//! the range with the smallest start among the next ranges of all stacks
//! comes next, moved by the lines that the ranges before it added.

use vstd::prelude::*;

use crate::diff::InputDiff;
use crate::hunk::{made, make, HunkRange, RangeFault};
use crate::object_id::ObjectId;
use crate::path::{find_in, intersecting};
use crate::stack::{file_folded, find_entry, position_of, StackHunkRanges, TableView};
use crate::stack_id::StackId;
use crate::text::ints;

verus! {

/// What a commit did to one file.
#[derive(Debug, PartialEq, Eq, Clone)]
pub struct InputFile {
    pub path: String,
    pub diffs: Vec<InputDiff>,
}

/// A stack: its commits from the base up.
#[derive(Debug, PartialEq, Eq, Clone)]
pub struct InputStack {
    pub stack_id: StackId,
    pub commits: Vec<InputCommit>,
}

/// A commit: the files it changed.
#[derive(Debug, PartialEq, Eq, Clone)]
pub struct InputCommit {
    pub commit_id: ObjectId,
    pub files: Vec<InputFile>,
}

/// A path whose ranges could not be computed, and why. The stack and the
/// commit are named where folding a commit failed, not where combining the
/// stacks did.
#[derive(Debug, PartialEq, Eq, Clone)]
pub struct CalculationError {
    pub path: String,
    pub stack_id: Option<StackId>,
    pub commit_id: Option<ObjectId>,
    pub fault: RangeFault,
}

/// The ranges of one path in the line numbers of the workspace.
#[derive(Debug, PartialEq, Eq, Clone)]
pub struct WorkspacePath {
    pub path: String,
    pub hunks: Vec<HunkRange>,
}

/// Which commit owns which lines of which file, over all stacks.
#[derive(Debug, PartialEq, Eq, Clone)]
pub struct WorkspaceHunkRanges {
    pub paths: Vec<WorkspacePath>,
    pub errors: Vec<CalculationError>,
}

/// A [`CalculationError`] as plain values.
pub ghost struct FaultView {
    pub path: Seq<char>,
    pub stack_id: Option<StackId>,
    pub commit_id: Option<ObjectId>,
    pub fault: RangeFault,
}

/// A [`WorkspacePath`] as plain values.
pub ghost struct PathView {
    pub path: Seq<char>,
    pub hunks: Seq<HunkRange>,
}

impl View for CalculationError {
    type V = FaultView;

    open spec fn view(&self) -> FaultView {
        FaultView {
            path: self.path@,
            stack_id: self.stack_id,
            commit_id: self.commit_id,
            fault: self.fault,
        }
    }
}

impl View for WorkspacePath {
    type V = PathView;

    open spec fn view(&self) -> PathView {
        PathView { path: self.path@, hunks: self.hunks@ }
    }
}

/// The views of `v`, one by one.
pub open spec fn fault_views(v: Seq<CalculationError>) -> Seq<FaultView> {
    Seq::new(v.len(), |k: int| v[k]@)
}

/// The views of `v`, one by one.
pub open spec fn path_views(v: Seq<WorkspacePath>) -> Seq<PathView> {
    Seq::new(v.len(), |k: int| v[k]@)
}

/// The views of `v`, one by one.
pub open spec fn stack_views(v: Seq<StackHunkRanges>) -> Seq<Seq<TableView>> {
    Seq::new(v.len(), |k: int| v[k]@)
}

// ---------------------------------------------------------------------------
// Folding the stacks
// ---------------------------------------------------------------------------
/// Tables and faults of a stack after the first `n` files of a commit are
/// folded in, one after the other.
pub open spec fn files_folded(
    tables: Seq<TableView>,
    faults: Seq<FaultView>,
    stack_id: StackId,
    commit_id: ObjectId,
    files: Seq<InputFile>,
    n: int,
) -> (Seq<TableView>, Seq<FaultView>)
    decreases n,
{
    if n <= 0 {
        (tables, faults)
    } else {
        let before = files_folded(tables, faults, stack_id, commit_id, files, n - 1);
        let file = files[n - 1];
        let step = file_folded(before.0, stack_id, commit_id, file.path@, file.diffs@);
        (
            step.0,
            match step.1 {
                Some(fault) => before.1.push(
                    FaultView {
                        path: file.path@,
                        stack_id: Some(stack_id),
                        commit_id: Some(commit_id),
                        fault,
                    },
                ),
                None => before.1,
            },
        )
    }
}

/// Tables and faults of a stack after its first `n` commits.
pub open spec fn commits_folded(stack_id: StackId, commits: Seq<InputCommit>, n: int) -> (
    Seq<TableView>,
    Seq<FaultView>,
)
    decreases n,
{
    if n <= 0 {
        (Seq::empty(), Seq::empty())
    } else {
        let before = commits_folded(stack_id, commits, n - 1);
        let commit = commits[n - 1];
        files_folded(
            before.0,
            before.1,
            stack_id,
            commit.commit_id,
            commit.files@,
            commit.files@.len() as int,
        )
    }
}

/// Tables and faults of a stack.
pub open spec fn stack_built(stack: InputStack) -> (Seq<TableView>, Seq<FaultView>) {
    commits_folded(stack.stack_id, stack.commits@, stack.commits@.len() as int)
}

/// The tables of all stacks.
pub open spec fn stacks_built(stacks: Seq<InputStack>) -> Seq<Seq<TableView>> {
    Seq::new(stacks.len(), |k: int| stack_built(stacks[k]).0)
}

/// The faults of the first `n` stacks, in order.
pub open spec fn build_faults(stacks: Seq<InputStack>, n: int) -> Seq<FaultView>
    decreases n,
{
    if n <= 0 {
        Seq::empty()
    } else {
        build_faults(stacks, n - 1) + stack_built(stacks[n - 1]).1
    }
}

// ---------------------------------------------------------------------------
// The paths
// ---------------------------------------------------------------------------
/// `paths` and then the paths of the first `n` tables, each path once, in
/// the order in which it first comes up.
pub open spec fn with_paths(paths: Seq<Seq<char>>, tables: Seq<TableView>, n: int) -> Seq<Seq<char>>
    decreases n,
{
    if n <= 0 {
        paths
    } else {
        let before = with_paths(paths, tables, n - 1);
        if before.contains(tables[n - 1].path) {
            before
        } else {
            before.push(tables[n - 1].path)
        }
    }
}

/// The paths of the first `n` stacks, each path once, in the order in which
/// it first comes up.
pub open spec fn all_paths(stacks: Seq<Seq<TableView>>, n: int) -> Seq<Seq<char>>
    decreases n,
{
    if n <= 0 {
        Seq::empty()
    } else {
        with_paths(all_paths(stacks, n - 1), stacks[n - 1], stacks[n - 1].len() as int)
    }
}

// ---------------------------------------------------------------------------
// Combining the stacks for one path
// ---------------------------------------------------------------------------
/// The range lists of `path` in the first `n` stacks, for the stacks that
/// touched the path, in the order of the stacks.
pub open spec fn lists_for(stacks: Seq<Seq<TableView>>, path: Seq<char>, n: int) -> Seq<
    Seq<HunkRange>,
>
    decreases n,
{
    if n <= 0 {
        Seq::empty()
    } else {
        let before = lists_for(stacks, path, n - 1);
        match position_of(stacks[n - 1], path) {
            Some(k) => before.push(stacks[n - 1][k].hunks),
            None => before,
        }
    }
}

/// Among the first `n` lists, the one whose next range has the smallest
/// start, `cursors` telling which range of each list is next; the first
/// such list where several have that start, `None` where no range is left.
pub open spec fn best_upto(lists: Seq<Seq<HunkRange>>, cursors: Seq<int>, n: int) -> Option<int>
    decreases n,
{
    if n <= 0 {
        None
    } else {
        let before = best_upto(lists, cursors, n - 1);
        let i = n - 1;
        if cursors[i] < lists[i].len() && (before is None || lists[i][cursors[i]].start
            < lists[before->0][cursors[before->0]].start) {
            Some(i)
        } else {
            before
        }
    }
}

/// The list that gives the next range.
pub open spec fn best(lists: Seq<Seq<HunkRange>>, cursors: Seq<int>) -> Option<int> {
    best_upto(lists, cursors, lists.len() as int)
}

/// How many ranges of each list were taken when `k` ranges were taken in all.
pub open spec fn cursors_after(lists: Seq<Seq<HunkRange>>, k: int) -> Seq<int>
    decreases k,
{
    if k <= 0 {
        Seq::new(lists.len(), |i: int| 0int)
    } else {
        let c = cursors_after(lists, k - 1);
        match best(lists, c) {
            Some(b) => c.update(b, c[b] + 1),
            None => c,
        }
    }
}

/// The range that is taken after `k` others, as its stack has it.
pub open spec fn picked(lists: Seq<Seq<HunkRange>>, k: int) -> Option<HunkRange> {
    let c = cursors_after(lists, k);
    match best(lists, c) {
        Some(b) => Some(lists[b][c[b]]),
        None => None,
    }
}

/// The lines that the first `k` ranges taken added, net of those removed.
pub open spec fn shift_before(lists: Seq<Seq<HunkRange>>, k: int) -> int
    decreases k,
{
    if k <= 0 {
        0
    } else {
        shift_before(lists, k - 1) + match picked(lists, k - 1) {
            Some(h) => h.line_shift as int,
            None => 0,
        }
    }
}

/// The range that is taken after `k` others, in the line numbers of the
/// workspace; `None` where none is left or its start does not fit in 32 bits.
pub open spec fn emitted(lists: Seq<Seq<HunkRange>>, k: int) -> Option<HunkRange> {
    match picked(lists, k) {
        Some(h) => made(
            h.stack_id,
            h.commit_id,
            h.start + shift_before(lists, k),
            h.lines as int,
            h.line_shift as int,
        ),
        None => None,
    }
}

/// The sum of `s`.
pub open spec fn total(s: Seq<int>) -> int
    decreases s.len(),
{
    if s.len() == 0 {
        0
    } else {
        total(s.drop_last()) + s.last()
    }
}

/// The lengths of the lists.
pub open spec fn lengths(lists: Seq<Seq<HunkRange>>) -> Seq<int> {
    Seq::new(lists.len(), |i: int| lists[i].len() as int)
}

/// The ranges of all stacks for one path as one list in the line numbers
/// of the workspace; `None` where a start does not fit in 32 bits.
pub open spec fn combined(lists: Seq<Seq<HunkRange>>) -> Option<Seq<HunkRange>> {
    let n = total(lengths(lists));
    if forall|k: int| 0 <= k < n ==> (#[trigger] emitted(lists, k)) is Some {
        Some(Seq::new(n as nat, |k: int| emitted(lists, k)->0))
    } else {
        None
    }
}

/// The workspace lists of the first `n` of `paths`, for the paths whose
/// ranges could be combined.
pub open spec fn combined_paths(stacks: Seq<Seq<TableView>>, paths: Seq<Seq<char>>, n: int) -> Seq<
    PathView,
>
    decreases n,
{
    if n <= 0 {
        Seq::empty()
    } else {
        let before = combined_paths(stacks, paths, n - 1);
        match combined(lists_for(stacks, paths[n - 1], stacks.len() as int)) {
            Some(hunks) => before.push(PathView { path: paths[n - 1], hunks }),
            None => before,
        }
    }
}

/// The faults of the first `n` of `paths`: one for each path whose ranges
/// could not be combined.
pub open spec fn combine_faults(stacks: Seq<Seq<TableView>>, paths: Seq<Seq<char>>, n: int) -> Seq<
    FaultView,
>
    decreases n,
{
    if n <= 0 {
        Seq::empty()
    } else {
        let before = combine_faults(stacks, paths, n - 1);
        match combined(lists_for(stacks, paths[n - 1], stacks.len() as int)) {
            Some(hunks) => before,
            None => before.push(
                FaultView {
                    path: paths[n - 1],
                    stack_id: None,
                    commit_id: None,
                    fault: RangeFault::OutOfRange,
                },
            ),
        }
    }
}

/// Position of the list of `path` among `paths`: the first one, if any.
pub open spec fn path_position(paths: Seq<PathView>, path: Seq<char>) -> Option<int>
    decreases paths.len(),
{
    if paths.len() == 0 {
        None
    } else {
        match path_position(paths.drop_last(), path) {
            Some(k) => Some(k),
            None => if paths.last().path == path {
                Some(paths.len() - 1)
            } else {
                None
            },
        }
    }
}

/// The list of `path` among `paths`, if there is one.
pub open spec fn ranges_in(paths: Seq<PathView>, path: Seq<char>) -> Option<Seq<HunkRange>> {
    match path_position(paths, path) {
        Some(k) => Some(paths[k].hunks),
        None => None,
    }
}

/// The ranges of `path` among `paths` that meet the `lines` lines from
/// `start` on; none where `paths` has no list for the path.
pub open spec fn found_in(paths: Seq<PathView>, path: Seq<char>, start: int, lines: int) -> Seq<
    HunkRange,
> {
    match ranges_in(paths, path) {
        Some(hunks) => intersecting(hunks, start, lines),
        None => Seq::empty(),
    }
}

/// The lists of the index that [`WorkspaceHunkRanges::new`] builds from `stacks`.
pub open spec fn index_paths(stacks: Seq<InputStack>) -> Seq<PathView> {
    let built = stacks_built(stacks);
    let paths = all_paths(built, built.len() as int);
    combined_paths(built, paths, paths.len() as int)
}

/// The faults of the index that [`WorkspaceHunkRanges::new`] builds from `stacks`.
pub open spec fn index_faults(stacks: Seq<InputStack>) -> Seq<FaultView> {
    let built = stacks_built(stacks);
    let paths = all_paths(built, built.len() as int);
    build_faults(stacks, stacks.len() as int) + combine_faults(built, paths, paths.len() as int)
}

/// The views of `v`, one by one.
pub open spec fn strings(v: Seq<String>) -> Seq<Seq<char>> {
    Seq::new(v.len(), |k: int| v[k]@)
}

// ---------------------------------------------------------------------------
// Facts about sums and about the choice of the next range
// ---------------------------------------------------------------------------
proof fn lemma_total_update(s: Seq<int>, b: int, v: int)
    requires
        0 <= b < s.len(),
    ensures
        total(s.update(b, v)) == total(s) - s[b] + v,
    decreases s.len(),
{
    let u = s.update(b, v);
    if b == s.len() - 1 {
        assert(u.drop_last() =~= s.drop_last());
    } else {
        assert(u.drop_last() =~= s.drop_last().update(b, v));
        lemma_total_update(s.drop_last(), b, v);
    }
}

proof fn lemma_total_mono(a: Seq<int>, b: Seq<int>)
    requires
        a.len() == b.len(),
        forall|i: int| 0 <= i < a.len() ==> a[i] <= b[i],
    ensures
        total(a) <= total(b),
    decreases a.len(),
{
    if a.len() > 0 {
        lemma_total_mono(a.drop_last(), b.drop_last());
    }
}

proof fn lemma_total_zero(s: Seq<int>)
    requires
        forall|i: int| 0 <= i < s.len() ==> s[i] == 0,
    ensures
        total(s) == 0,
    decreases s.len(),
{
    if s.len() > 0 {
        lemma_total_zero(s.drop_last());
    }
}

/// The list chosen has a range left; where none is chosen, none has.
pub proof fn lemma_best(lists: Seq<Seq<HunkRange>>, cursors: Seq<int>, n: int)
    requires
        0 <= n <= lists.len(),
    ensures
        match best_upto(lists, cursors, n) {
            Some(b) => 0 <= b < n && cursors[b] < lists[b].len(),
            None => forall|i: int| 0 <= i < n ==> cursors[i] >= lists[i].len(),
        },
    decreases n,
{
    if n > 0 {
        lemma_best(lists, cursors, n - 1);
    }
}

// ---------------------------------------------------------------------------
// The index
// ---------------------------------------------------------------------------
fn copy_of(diffs: &Vec<InputDiff>) -> (r: Vec<InputDiff>)
    ensures
        r@ == diffs@,
{
    let mut r: Vec<InputDiff> = Vec::new();
    let mut k: usize = 0;
    while k < diffs.len()
        invariant
            k <= diffs.len(),
            r@ == diffs@.take(k as int),
        decreases diffs.len() - k,
    {
        r.push(diffs[k]);
        assert(diffs@.take(k + 1) =~= diffs@.take(k as int).push(diffs@[k as int]));
        k += 1;
    }
    assert(diffs@.take(k as int) =~= diffs@);
    r
}

fn next_list(lists: &Vec<&Vec<HunkRange>>, cursors: &Vec<usize>, Ghost(model): Ghost<
    Seq<Seq<HunkRange>>,
>) -> (r: Option<usize>)
    requires
        cursors.len() == lists.len(),
        model.len() == lists.len(),
        forall|i: int| 0 <= i < lists.len() ==> (#[trigger] lists[i])@ == model[i],
    ensures
        match r {
            Some(b) => best(model, ints(cursors@)) == Some(b as int) && b < lists.len() && cursors[b as int]
                < lists[b as int].len(),
            None => best(model, ints(cursors@)) is None && forall|i: int|
                0 <= i < lists.len() ==> cursors[i] >= model[i].len(),
        },
{
    let mut found: Option<usize> = None;
    let mut i: usize = 0;
    while i < lists.len()
        invariant
            i <= lists.len(),
            cursors.len() == lists.len(),
            model.len() == lists.len(),
            forall|m: int| 0 <= m < lists.len() ==> (#[trigger] lists[m])@ == model[m],
            match found {
                Some(b) => best_upto(model, ints(cursors@), i as int) == Some(b as int) && b < i
                    && cursors[b as int] < lists[b as int].len(),
                None => best_upto(model, ints(cursors@), i as int) is None,
            },
        decreases lists.len() - i,
    {
        proof {
            assert(ints(cursors@)[i as int] == cursors[i as int]);
            assert(lists[i as int]@ == model[i as int]);
            if found is Some {
                assert(ints(cursors@)[found->0 as int] == cursors[found->0 as int]);
                assert(lists[found->0 as int]@ == model[found->0 as int]);
            }
        }
        if cursors[i] < lists[i].len() {
            let start = lists[i][cursors[i]].start;
            let better = match found {
                None => true,
                Some(b) => start < lists[b][cursors[b]].start,
            };
            if better {
                found = Some(i);
            }
        }
        i += 1;
    }
    proof {
        lemma_best(model, ints(cursors@), lists.len() as int);
        assert forall|i: int| 0 <= i < lists.len() implies ints(cursors@)[i] == cursors[i] by {}
    }
    found
}

/// Combines the ranges that the stacks hold for `path` into one list in
/// the line numbers of the workspace.
pub fn combine_path_ranges(path: &String, stacks: &Vec<StackHunkRanges>) -> (r: Result<
    Vec<HunkRange>,
    RangeFault,
>)
    ensures
        match combined(lists_for(stack_views(stacks@), path@, stacks@.len() as int)) {
            Some(hunks) => r is Ok && r->Ok_0@ == hunks,
            None => r == Err::<Vec<HunkRange>, RangeFault>(RangeFault::OutOfRange),
        },
{
    let ghost views = stack_views(stacks@);
    let mut lists: Vec<&Vec<HunkRange>> = Vec::new();
    let ghost mut model: Seq<Seq<HunkRange>> = Seq::empty();
    let mut s: usize = 0;
    while s < stacks.len()
        invariant
            s <= stacks.len(),
            views == stack_views(stacks@),
            model == lists_for(views, path@, s as int),
            model.len() == lists.len(),
            forall|i: int| 0 <= i < lists.len() ==> (#[trigger] lists[i])@ == model[i],
        decreases stacks.len() - s,
    {
        let stack = &stacks[s];
        assert(views[s as int] == stack@);
        match find_entry(&stack.paths, path, Ghost(stack@)) {
            Some(k) => {
                lists.push(&stack.paths[k].ranges.hunks);
                proof {
                    model = model.push(stack@[k as int].hunks);
                }
            },
            None => {},
        }
        s += 1;
    }
    let n = lists.len();
    let mut cursors: Vec<usize> = Vec::new();
    while cursors.len() < n
        invariant
            cursors.len() <= n,
            forall|i: int| 0 <= i < cursors.len() ==> cursors[i] == 0,
        decreases n - cursors.len(),
    {
        cursors.push(0);
    }
    let mut out: Vec<HunkRange> = Vec::new();
    let mut shift: i128 = 0;
    proof {
        assert(ints(cursors@) =~= cursors_after(model, 0));
        lemma_total_zero(ints(cursors@));
        lemma_total_mono(ints(cursors@), lengths(model));
    }
    loop
        invariant
            n == lists.len(),
            model == lists_for(stack_views(stacks@), path@, stacks@.len() as int),
            cursors.len() == n,
            model.len() == n,
            forall|i: int| 0 <= i < lists.len() ==> (#[trigger] lists[i])@ == model[i],
            ints(cursors@) == cursors_after(model, out.len() as int),
            forall|i: int| 0 <= i < n ==> cursors[i] <= model[i].len(),
            total(ints(cursors@)) == out.len(),
            out.len() <= total(lengths(model)),
            shift == shift_before(model, out.len() as int),
            -(out.len() as int) * 0x1_0000_0000 <= shift <= out.len() * 0x1_0000_0000,
            forall|m: int| 0 <= m < out.len() ==> #[trigger] emitted(model, m) == Some(out[m]),
        ensures
            out.len() == total(lengths(model)),
            forall|m: int| 0 <= m < out.len() ==> #[trigger] emitted(model, m) == Some(out[m]),
        decreases total(lengths(model)) - out.len(),
    {
        let ghost k = out.len() as int;
        let ghost before = ints(cursors@);
        match next_list(&lists, &cursors, Ghost(model)) {
            None => {
                proof {
                    assert forall|i: int| 0 <= i < n implies before[i] == lengths(model)[i] by {
                        assert(before[i] == cursors[i]);
                    }
                    assert(before =~= lengths(model));
                }
                break ;
            },
            Some(b) => {
                let h = lists[b][cursors[b]];
                assert(before[b as int] == cursors[b as int]);
                assert(lists[b as int]@ == model[b as int]);
                assert(picked(model, k) == Some(h));
                cursors[b] = cursors[b] + 1;
                proof {
                    assert(ints(cursors@) =~= before.update(b as int, before[b as int] + 1));
                    lemma_total_update(before, b as int, before[b as int] + 1);
                    assert forall|i: int| 0 <= i < n implies ints(cursors@)[i] <= lengths(model)[i] by {
                        assert(ints(cursors@)[i] == cursors[i]);
                    }
                    lemma_total_mono(ints(cursors@), lengths(model));
                    assert(ints(cursors@) == cursors_after(model, k + 1));
                }
                match make(h.stack_id, h.commit_id, h.start as i128 + shift, h.lines as i128, h.line_shift as i128) {
                    None => {
                        assert(emitted(model, k) is None);
                        return Err(RangeFault::OutOfRange);
                    },
                    Some(moved) => {
                        out.push(moved);
                        shift = shift + h.line_shift as i128;
                    },
                }
            },
        }
    }
    assert(combined(model) is Some);
    assert(out@ =~= combined(model)->0);
    Ok(out)
}

fn has_path(paths: &Vec<String>, path: &String) -> (r: bool)
    ensures
        r == strings(paths@).contains(path@),
{
    let mut k: usize = 0;
    while k < paths.len()
        invariant
            k <= paths.len(),
            forall|m: int| 0 <= m < k ==> strings(paths@)[m] != path@,
        decreases paths.len() - k,
    {
        if paths[k] == *path {
            assert(strings(paths@)[k as int] == path@);
            return true;
        }
        k += 1;
    }
    false
}

fn build_stack(input: &InputStack) -> (r: (StackHunkRanges, Vec<CalculationError>))
    ensures
        r.0@ == stack_built(*input).0,
        fault_views(r.1@) == stack_built(*input).1,
{
    let mut stack = StackHunkRanges::new();
    let mut errors: Vec<CalculationError> = Vec::new();
    let stack_id = input.stack_id;
    let mut c: usize = 0;
    assert(fault_views(errors@) =~= Seq::<FaultView>::empty());
    while c < input.commits.len()
        invariant
            c <= input.commits.len(),
            stack_id == input.stack_id,
            stack@ == commits_folded(stack_id, input.commits@, c as int).0,
            fault_views(errors@) == commits_folded(stack_id, input.commits@, c as int).1,
        decreases input.commits.len() - c,
    {
        let commit = &input.commits[c];
        let commit_id = commit.commit_id;
        let ghost tables = stack@;
        let ghost faults = fault_views(errors@);
        let mut f: usize = 0;
        while f < commit.files.len()
            invariant
                f <= commit.files.len(),
                stack@ == files_folded(tables, faults, stack_id, commit_id, commit.files@, f as int).0,
                fault_views(errors@) == files_folded(
                    tables,
                    faults,
                    stack_id,
                    commit_id,
                    commit.files@,
                    f as int,
                ).1,
            decreases commit.files.len() - f,
        {
            let file = &commit.files[f];
            let ghost seen = fault_views(errors@);
            match stack.add(stack_id, commit_id, &file.path, copy_of(&file.diffs)) {
                Ok(()) => {},
                Err(fault) => {
                    errors.push(
                        CalculationError {
                            path: file.path.clone(),
                            stack_id: Some(stack_id),
                            commit_id: Some(commit_id),
                            fault,
                        },
                    );
                    assert(fault_views(errors@) =~= seen.push(
                        FaultView {
                            path: file.path@,
                            stack_id: Some(stack_id),
                            commit_id: Some(commit_id),
                            fault,
                        },
                    ));
                },
            }
            f += 1;
        }
        c += 1;
    }
    (stack, errors)
}

impl WorkspaceHunkRanges {
    /// Builds the index: folds each stack commit by commit, then combines
    /// the stacks path by path. A fold or a path that fails is listed in
    /// `errors`; the others are not affected.
    pub fn new(input_stacks: Vec<InputStack>) -> (r: WorkspaceHunkRanges)
        ensures
            path_views(r.paths@) == index_paths(input_stacks@),
            fault_views(r.errors@) == index_faults(input_stacks@),
    {
        let ghost built = stacks_built(input_stacks@);
        let mut stacks: Vec<StackHunkRanges> = Vec::new();
        let mut errors: Vec<CalculationError> = Vec::new();
        let mut s: usize = 0;
        assert(fault_views(errors@) =~= build_faults(input_stacks@, 0));
        while s < input_stacks.len()
            invariant
                s <= input_stacks.len(),
                stacks.len() == s,
                built == stacks_built(input_stacks@),
                forall|k: int| 0 <= k < s ==> (#[trigger] stacks[k])@ == built[k],
                fault_views(errors@) == build_faults(input_stacks@, s as int),
            decreases input_stacks.len() - s,
        {
            let (stack, mut faults) = build_stack(&input_stacks[s]);
            let ghost seen = fault_views(errors@);
            let ghost more = fault_views(faults@);
            stacks.push(stack);
            errors.append(&mut faults);
            assert(fault_views(errors@) =~= seen + more);
            s += 1;
        }
        assert(stack_views(stacks@) =~= built);
        let mut paths: Vec<String> = Vec::new();
        let mut s: usize = 0;
        assert(strings(paths@) =~= all_paths(built, 0));
        while s < stacks.len()
            invariant
                s <= stacks.len(),
                stack_views(stacks@) == built,
                built.len() == stacks.len(),
                strings(paths@) == all_paths(built, s as int),
            decreases stacks.len() - s,
        {
            let stack = &stacks[s];
            let ghost start = strings(paths@);
            assert(built[s as int] == stack@);
            let mut k: usize = 0;
            while k < stack.paths.len()
                invariant
                    k <= stack.paths.len(),
                    strings(paths@) == with_paths(start, stack@, k as int),
                decreases stack.paths.len() - k,
            {
                let path = &stack.paths[k].path;
                let ghost seen = strings(paths@);
                assert(stack@[k as int].path == path@);
                if !has_path(&paths, path) {
                    paths.push(path.clone());
                    assert(strings(paths@) =~= seen.push(path@));
                }
                k += 1;
            }
            s += 1;
        }
        let ghost names = strings(paths@);
        let mut combined_lists: Vec<WorkspacePath> = Vec::new();
        let ghost folded = fault_views(errors@);
        let mut p: usize = 0;
        assert(path_views(combined_lists@) =~= combined_paths(built, names, 0));
        assert(fault_views(errors@) =~= folded + combine_faults(built, names, 0));
        while p < paths.len()
            invariant
                p <= paths.len(),
                names == strings(paths@),
                stack_views(stacks@) == built,
                built.len() == stacks.len(),
                path_views(combined_lists@) == combined_paths(built, names, p as int),
                fault_views(errors@) == folded + combine_faults(built, names, p as int),
            decreases paths.len() - p,
        {
            let path = &paths[p];
            assert(names[p as int] == path@);
            let ghost lists_before = path_views(combined_lists@);
            let ghost faults_before = fault_views(errors@);
            match combine_path_ranges(path, &stacks) {
                Ok(hunks) => {
                    combined_lists.push(WorkspacePath { path: path.clone(), hunks });
                    assert(path_views(combined_lists@) =~= lists_before.push(
                        PathView { path: path@, hunks: hunks@ },
                    ));
                },
                Err(fault) => {
                    errors.push(
                        CalculationError { path: path.clone(), stack_id: None, commit_id: None, fault },
                    );
                    assert(fault_views(errors@) =~= faults_before.push(
                        FaultView {
                            path: path@,
                            stack_id: None,
                            commit_id: None,
                            fault: RangeFault::OutOfRange,
                        },
                    ));
                    assert(fault_views(errors@) =~= folded + combine_faults(built, names, p + 1));
                },
            }
            p += 1;
        }
        WorkspaceHunkRanges { paths: combined_lists, errors }
    }

    /// The ranges of `path` that meet the `lines` lines from `start` on.
    pub open spec fn found(&self, path: Seq<char>, start: int, lines: int) -> Seq<HunkRange> {
        found_in(path_views(self.paths@), path, start, lines)
    }

    /// The ranges of `path` that meet the `lines` lines from `start` on, in
    /// the line numbers of the workspace; none where the index has no list
    /// for the path.
    pub fn intersection(&self, path: &String, start: i32, lines: i32) -> (found: Vec<HunkRange>)
        ensures
            found@ == self.found(path@, start as int, lines as int),
    {
        self.lookup(path, start as i64, lines as i64)
    }

    /// As [`Self::intersection`], for line numbers of any size.
    pub fn lookup(&self, path: &String, start: i64, lines: i64) -> (found: Vec<HunkRange>)
        ensures
            found@ == self.found(path@, start as int, lines as int),
    {
        let ghost views = path_views(self.paths@);
        let mut k: usize = 0;
        assert(views.take(0) =~= Seq::<PathView>::empty());
        while k < self.paths.len()
            invariant
                k <= self.paths.len(),
                views == path_views(self.paths@),
                path_position(views.take(k as int), path@) is None,
            decreases self.paths.len() - k,
        {
            assert(views.take(k + 1).drop_last() =~= views.take(k as int));
            if self.paths[k].path == *path {
                proof {
                    assert(views[k as int].path == path@);
                    lemma_path_position_extends(views, path@, k + 1);
                    assert(views[k as int].hunks == self.paths[k as int].hunks@);
                }
                return find_in(&self.paths[k].hunks, start, lines);
            }
            k += 1;
        }
        assert(views.take(k as int) =~= views);
        Vec::new()
    }
}

proof fn lemma_path_position_extends(paths: Seq<PathView>, path: Seq<char>, n: int)
    requires
        0 <= n <= paths.len(),
        path_position(paths.take(n), path) is Some,
    ensures
        path_position(paths, path) == path_position(paths.take(n), path),
    decreases paths.len() - n,
{
    if n < paths.len() {
        assert(paths.take(n + 1).drop_last() =~= paths.take(n));
        lemma_path_position_extends(paths, path, n + 1);
    } else {
        assert(paths.take(n) =~= paths);
    }
}

/// The range taken after `k` others stands in the combined list at its own
/// start plus the lines that the `k` ranges before it added, and is
/// otherwise as its stack has it.
pub proof fn lemma_combined_shift(lists: Seq<Seq<HunkRange>>, k: int)
    requires
        combined(lists) is Some,
        0 <= k < combined(lists)->0.len(),
    ensures
        picked(lists, k) is Some,
        combined(lists)->0[k].start == picked(lists, k)->0.start + shift_before(lists, k),
        combined(lists)->0[k].lines == picked(lists, k)->0.lines,
        combined(lists)->0[k].line_shift == picked(lists, k)->0.line_shift,
        combined(lists)->0[k].stack_id == picked(lists, k)->0.stack_id,
        combined(lists)->0[k].commit_id == picked(lists, k)->0.commit_id,
{
    lemma_total_mono(Seq::new(lists.len(), |i: int| 0int), lengths(lists));
    lemma_total_zero(Seq::new(lists.len(), |i: int| 0int));
    assert(emitted(lists, k) is Some);
}

} // verus!
