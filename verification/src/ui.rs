//! Hunk dependencies as they are shown: for each hunk of the worktree the
//! commits of the workspace that it depends on.

use vstd::prelude::*;

use crate::hunk::HunkRange;
use crate::object_id::ObjectId;
use crate::stack_id::StackId;
use crate::workspace::{found_in, path_views, CalculationError, PathView, WorkspaceHunkRanges};

verus! {

/// A commit that a hunk depends on, and the stack that holds the commit.
/// A hunk is locked to a commit when it changes lines that the commit
/// owns; it can be locked to more than one.
#[derive(Debug, Clone, Copy, PartialEq, Eq, Hash)]
pub struct HunkLock {
    /// The stack that contains the commit.
    pub stack_id: StackId,
    /// The commit that the hunk applies to.
    pub commit_id: ObjectId,
}

/// A hunk of a unified diff.
#[derive(Debug, Clone, PartialEq, Eq)]
pub struct DiffHunk {
    pub old_start: u32,
    pub old_lines: u32,
    pub new_start: u32,
    pub new_lines: u32,
    /// The text of the hunk.
    pub diff: Vec<u8>,
}

/// The hunks of the change to one path of the worktree.
#[derive(Debug, Clone, PartialEq, Eq)]
pub struct ChangeHunks {
    pub path: String,
    pub hunks: Vec<DiffHunk>,
}

/// The dependencies of the hunks of the worktree, and the paths whose
/// ranges could not be computed.
#[derive(Debug, Clone, PartialEq, Eq)]
pub struct HunkDependencies {
    /// For each hunk that depends on a commit: its path, the hunk, and
    /// what it is locked to.
    pub diffs: Vec<(String, DiffHunk, Vec<HunkLock>)>,
    /// What went wrong; the other paths are not affected.
    pub errors: Vec<CalculationError>,
}

/// An entry of [`HunkDependencies::diffs`] as plain values.
pub ghost struct DependencyView {
    pub path: Seq<char>,
    pub hunk: DiffHunk,
    pub locks: Seq<HunkLock>,
}

/// The entries as plain values.
pub open spec fn dependency_views(v: Seq<(String, DiffHunk, Vec<HunkLock>)>) -> Seq<DependencyView> {
    Seq::new(v.len(), |k: int| DependencyView { path: v[k].0@, hunk: v[k].1, locks: v[k].2@ })
}

/// The locks that the ranges stand for, one each.
pub open spec fn locks_of(ranges: Seq<HunkRange>) -> Seq<HunkLock> {
    Seq::new(ranges.len(), |k: int| HunkLock { stack_id: ranges[k].stack_id, commit_id: ranges[k].commit_id })
}

/// The entries after the first `n` hunks of the change to `path` are
/// looked up: a hunk that replaces lines of ranges of the index gets an
/// entry with a lock for each of them.
pub open spec fn hunks_looked_up(
    entries: Seq<DependencyView>,
    index: Seq<PathView>,
    path: Seq<char>,
    hunks: Seq<DiffHunk>,
    n: int,
) -> Seq<DependencyView>
    decreases n,
{
    if n <= 0 {
        entries
    } else {
        let before = hunks_looked_up(entries, index, path, hunks, n - 1);
        let hunk = hunks[n - 1];
        let found = found_in(index, path, hunk.old_start as int, hunk.old_lines as int);
        if found.len() > 0 {
            before.push(DependencyView { path, hunk, locks: locks_of(found) })
        } else {
            before
        }
    }
}

/// The entries after the first `n` changes are looked up.
pub open spec fn changes_looked_up(index: Seq<PathView>, changes: Seq<ChangeHunks>, n: int) -> Seq<DependencyView>
    decreases n,
{
    if n <= 0 {
        Seq::empty()
    } else {
        let change = changes[n - 1];
        hunks_looked_up(
            changes_looked_up(index, changes, n - 1),
            index,
            change.path@,
            change.hunks@,
            change.hunks@.len() as int,
        )
    }
}

/// The locks that the ranges stand for, one each.
pub fn locks_from(ranges: &Vec<HunkRange>) -> (locks: Vec<HunkLock>)
    ensures
        locks@ == locks_of(ranges@),
{
    let mut locks: Vec<HunkLock> = Vec::new();
    let mut k: usize = 0;
    while k < ranges.len()
        invariant
            k <= ranges.len(),
            locks@.len() == k,
            forall|m: int| 0 <= m < k ==> locks@[m] == locks_of(ranges@)[m],
        decreases ranges.len() - k,
    {
        locks.push(HunkLock { stack_id: ranges[k].stack_id, commit_id: ranges[k].commit_id });
        k += 1;
    }
    assert(locks@ =~= locks_of(ranges@));
    locks
}

impl HunkDependencies {
    /// Looks up each hunk of the changes of the worktree in the index of
    /// the workspace, by the lines that the hunk replaces. The errors of
    /// the index are handed on.
    pub fn try_from_workspace_ranges(ranges: WorkspaceHunkRanges, worktree_changes: Vec<ChangeHunks>) -> (r:
        HunkDependencies)
        ensures
            dependency_views(r.diffs@) == changes_looked_up(
                path_views(ranges.paths@),
                worktree_changes@,
                worktree_changes@.len() as int,
            ),
            r.errors == ranges.errors,
    {
        let mut diffs: Vec<(String, DiffHunk, Vec<HunkLock>)> = Vec::new();
        let ghost index = path_views(ranges.paths@);
        let ghost all = worktree_changes@;
        assert(dependency_views(diffs@) =~= changes_looked_up(index, all, 0));
        for change in it: worktree_changes
            invariant
                it.seq() == all,
                index == path_views(ranges.paths@),
                dependency_views(diffs@) == changes_looked_up(index, all, it.index() as int),
        {
            let ghost start = dependency_views(diffs@);
            let ChangeHunks { path, hunks } = change;
            let ghost listed = hunks@;
            for hunk in inner: hunks
                invariant
                    inner.seq() == listed,
                    index == path_views(ranges.paths@),
                    dependency_views(diffs@) == hunks_looked_up(start, index, path@, listed, inner.index() as int),
            {
                let found = ranges.lookup(&path, hunk.old_start as i64, hunk.old_lines as i64);
                if found.len() > 0 {
                    let locks = locks_from(&found);
                    let ghost before = dependency_views(diffs@);
                    diffs.push((path.clone(), hunk, locks));
                    assert(dependency_views(diffs@) =~= before.push(
                        DependencyView { path: path@, hunk, locks: locks_of(found@) },
                    ));
                }
            }
        }
        HunkDependencies { diffs, errors: ranges.errors }
    }
}

} // verus!
