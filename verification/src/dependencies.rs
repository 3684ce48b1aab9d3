//! Which commits the hunks of the working directory depend on.

use std::collections::HashMap;
use vstd::prelude::*;

use crate::hunk::HunkRange;
use crate::object_id::ObjectId;
use crate::stack_id::StackId;
use crate::workspace::{found_in, index_paths, path_views, InputStack, PathView, WorkspaceHunkRanges};

verus! {

broadcast use vstd::std_specs::hash::group_hash_axioms;

/// A hunk is locked when it changes lines that a commit of the workspace
/// owns; it can be locked to more than one branch.
#[derive(Debug, PartialEq, Eq, Clone, Copy)]
pub struct HunkLock {
    pub branch_id: StackId,
    pub commit_id: ObjectId,
}

/// One hunk of the working directory: the lines of the committed file that
/// it replaces, and the hash by which it is known.
#[derive(Debug, PartialEq, Eq, Clone, Copy, Structural)]
pub struct WorkdirHunk {
    pub old_start: u32,
    pub old_lines: u32,
    pub hash: u128,
}

/// The hunks of one file of the working directory.
#[derive(Debug, PartialEq, Eq, Clone)]
pub struct WorkdirFile {
    pub path: String,
    pub hunks: Vec<WorkdirHunk>,
}

/// What the locks are computed from.
pub struct HunkDependencyOptions<'a> {
    pub workdir: &'a Vec<WorkdirFile>,
    pub stacks: Vec<InputStack>,
}

/// The locks that the ranges stand for, one each.
pub open spec fn locks_of(ranges: Seq<HunkRange>) -> Seq<HunkLock> {
    Seq::new(
        ranges.len(),
        |k: int| HunkLock { branch_id: ranges[k].stack_id, commit_id: ranges[k].commit_id },
    )
}

/// The locks by hash after the first `n` hunks of `file` are looked up:
/// a hunk that meets ranges of the index is entered under its hash, in
/// place of what was there.
pub open spec fn locks_in_file(
    locks: Map<u128, Seq<HunkLock>>,
    index: Seq<PathView>,
    file: WorkdirFile,
    n: int,
) -> Map<u128, Seq<HunkLock>>
    decreases n,
{
    if n <= 0 {
        locks
    } else {
        let before = locks_in_file(locks, index, file, n - 1);
        let hunk = file.hunks@[n - 1];
        let found = found_in(index, file.path@, hunk.old_start as int, hunk.old_lines as int);
        if found.len() > 0 {
            before.insert(hunk.hash, locks_of(found))
        } else {
            before
        }
    }
}

/// The locks by hash after the first `n` files are looked up.
pub open spec fn locks_in_files(index: Seq<PathView>, workdir: Seq<WorkdirFile>, n: int) -> Map<
    u128,
    Seq<HunkLock>,
>
    decreases n,
{
    if n <= 0 {
        Map::empty()
    } else {
        let file = workdir[n - 1];
        locks_in_file(locks_in_files(index, workdir, n - 1), index, file, file.hunks@.len() as int)
    }
}

/// The lists of `m` as sequences.
pub open spec fn lock_views(m: Map<u128, Vec<HunkLock>>) -> Map<u128, Seq<HunkLock>> {
    m.map_values(|v: Vec<HunkLock>| v@)
}

/// The locks that the ranges stand for, one each.
pub fn locks_from(ranges: &Vec<HunkRange>) -> (locks: Vec<HunkLock>)
    ensures
        locks@ == locks_of(ranges@),
{
    let mut locks: Vec<HunkLock> = Vec::new();
    let mut k: usize = 0;
    while k < ranges.len()
        invariant
            k <= ranges.len(),
            locks@.len() == k,
            forall|m: int| 0 <= m < k ==> locks@[m] == locks_of(ranges@)[m],
        decreases ranges.len() - k,
    {
        locks.push(HunkLock { branch_id: ranges[k].stack_id, commit_id: ranges[k].commit_id });
        k += 1;
    }
    assert(locks@ =~= locks_of(ranges@));
    locks
}

/// The locks of the hunks of the working directory, by the hash of the
/// hunk, against a given index. A hunk that meets no range has no entry.
pub fn hunk_locks_in(index: &WorkspaceHunkRanges, workdir: &Vec<WorkdirFile>) -> (r: HashMap<
    u128,
    Vec<HunkLock>,
>)
    ensures
        lock_views(r@) == locks_in_files(path_views(index.paths@), workdir@, workdir@.len() as int),
{
    let ghost views = path_views(index.paths@);
    let mut result: HashMap<u128, Vec<HunkLock>> = HashMap::new();
    let mut f: usize = 0;
    assert(lock_views(result@) =~= locks_in_files(views, workdir@, 0));
    while f < workdir.len()
        invariant
            f <= workdir.len(),
            views == path_views(index.paths@),
            lock_views(result@) == locks_in_files(views, workdir@, f as int),
        decreases workdir.len() - f,
    {
        let file = &workdir[f];
        let ghost start = lock_views(result@);
        let mut h: usize = 0;
        while h < file.hunks.len()
            invariant
                h <= file.hunks.len(),
                views == path_views(index.paths@),
                lock_views(result@) == locks_in_file(start, views, *file, h as int),
            decreases file.hunks.len() - h,
        {
            let hunk = file.hunks[h];
            let found = index.lookup(&file.path, hunk.old_start as i64, hunk.old_lines as i64);
            let locks = locks_from(&found);
            if locks.len() > 0 {
                let ghost before = result@;
                result.insert(hunk.hash, locks);
                assert(lock_views(result@) =~= lock_views(before).insert(hunk.hash, locks@));
            }
            h += 1;
        }
        f += 1;
    }
    result
}

/// Builds the index of the stacks and computes the locks of the hunks of
/// the working directory, by the hash of the hunk.
pub fn compute_hunk_locks(options: HunkDependencyOptions) -> (r: HashMap<u128, Vec<HunkLock>>)
    ensures
        lock_views(r@) == locks_in_files(
            index_paths(options.stacks@),
            options.workdir@,
            options.workdir@.len() as int,
        ),
{
    let HunkDependencyOptions { workdir, stacks } = options;
    let index = WorkspaceHunkRanges::new(stacks);
    hunk_locks_in(&index, workdir)
}

} // verus!
