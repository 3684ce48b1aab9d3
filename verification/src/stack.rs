//! The range tables of one stack, by path.

use vstd::prelude::*;

use crate::diff::InputDiff;
use crate::hunk::{HunkRange, RangeFault};
use crate::object_id::ObjectId;
use crate::path::{intersecting, merged, PathHunkRanges};
use crate::stack_id::StackId;

verus! {

/// The table of one path.
#[derive(Debug, PartialEq, Eq, Clone)]
pub struct PathEntry {
    pub path: String,
    pub ranges: PathHunkRanges,
}

/// What one stack changed, file by file: a table for each path that a
/// commit of the stack touched, in the order in which the paths came up.
#[derive(Debug, PartialEq, Eq, Clone)]
pub struct StackHunkRanges {
    pub paths: Vec<PathEntry>,
}

/// The table of one path as plain values.
pub ghost struct TableView {
    pub path: Seq<char>,
    pub hunks: Seq<HunkRange>,
    pub commits: Seq<ObjectId>,
}

impl View for PathEntry {
    type V = TableView;

    open spec fn view(&self) -> TableView {
        TableView { path: self.path@, hunks: self.ranges.hunks@, commits: self.ranges.commit_ids@ }
    }
}

impl View for StackHunkRanges {
    type V = Seq<TableView>;

    open spec fn view(&self) -> Seq<TableView> {
        Seq::new(self.paths@.len(), |k: int| self.paths@[k]@)
    }
}

/// Position of the table of `path` among `tables`: the first one, if any.
pub open spec fn position_of(tables: Seq<TableView>, path: Seq<char>) -> Option<int>
    decreases tables.len(),
{
    if tables.len() == 0 {
        None
    } else {
        match position_of(tables.drop_last(), path) {
            Some(k) => Some(k),
            None => if tables.last().path == path {
                Some(tables.len() - 1)
            } else {
                None
            },
        }
    }
}

/// Whether no path has two tables.
pub open spec fn distinct_paths(tables: Seq<TableView>) -> bool {
    forall|a: int, b: int|
        0 <= a < b < tables.len() ==> (#[trigger] tables[a]).path != (#[trigger] tables[b]).path
}

/// The tables of a stack after the diffs `diffs` that the commit
/// `commit_id` made to `path` are folded in, and what went wrong, if
/// anything: then the tables are as before.
pub open spec fn file_folded(
    tables: Seq<TableView>,
    stack_id: StackId,
    commit_id: ObjectId,
    path: Seq<char>,
    diffs: Seq<InputDiff>,
) -> (Seq<TableView>, Option<RangeFault>) {
    match position_of(tables, path) {
        Some(k) => if tables[k].commits.contains(commit_id) {
            (tables, Some(RangeFault::DuplicateCommit))
        } else {
            match merged(tables[k].hunks, diffs, stack_id, commit_id) {
                None => (tables, Some(RangeFault::OutOfRange)),
                Some(hunks) => (
                    tables.update(
                        k,
                        TableView { path, hunks, commits: tables[k].commits.push(commit_id) },
                    ),
                    None,
                ),
            }
        },
        None => match merged(Seq::empty(), diffs, stack_id, commit_id) {
            None => (tables, Some(RangeFault::OutOfRange)),
            Some(hunks) => (tables.push(TableView { path, hunks, commits: seq![commit_id] }), None),
        },
    }
}

/// A position is that of a table with the path looked for, and no table
/// before it has that path; without a position no table has it.
pub proof fn lemma_position(tables: Seq<TableView>, path: Seq<char>)
    ensures
        match position_of(tables, path) {
            Some(k) => 0 <= k < tables.len() && tables[k].path == path && forall|m: int|
                0 <= m < k ==> (#[trigger] tables[m]).path != path,
            None => forall|m: int| 0 <= m < tables.len() ==> (#[trigger] tables[m]).path != path,
        },
    decreases tables.len(),
{
    if tables.len() > 0 {
        lemma_position(tables.drop_last(), path);
        assert forall|m: int| 0 <= m < tables.len() - 1 implies tables[m] == tables.drop_last()[m] by {}
    }
}

/// Folding a file in leaves no path with two tables.
pub proof fn lemma_fold_keeps_paths_distinct(
    tables: Seq<TableView>,
    stack_id: StackId,
    commit_id: ObjectId,
    path: Seq<char>,
    diffs: Seq<InputDiff>,
)
    requires
        distinct_paths(tables),
    ensures
        distinct_paths(file_folded(tables, stack_id, commit_id, path, diffs).0),
{
    lemma_position(tables, path);
}

pub(crate) fn find_entry(entries: &Vec<PathEntry>, path: &String, Ghost(tables): Ghost<Seq<TableView>>) -> (r:
    Option<usize>)
    requires
        tables.len() == entries.len(),
        forall|k: int| 0 <= k < entries.len() ==> tables[k] == (#[trigger] entries[k])@,
    ensures
        match position_of(tables, path@) {
            Some(k) => r == Some(k as usize) && 0 <= k < entries.len(),
            None => r is None,
        },
{
    let mut k: usize = 0;
    while k < entries.len()
        invariant
            k <= entries.len(),
            tables.len() == entries.len(),
            forall|m: int| 0 <= m < entries.len() ==> tables[m] == (#[trigger] entries[m])@,
            forall|m: int| 0 <= m < k ==> (#[trigger] tables[m]).path != path@,
        decreases entries.len() - k,
    {
        if entries[k].path == *path {
            proof {
                assert(tables[k as int].path == path@);
                lemma_position(tables, path@);
            }
            return Some(k);
        }
        k += 1;
    }
    proof {
        lemma_position(tables, path@);
    }
    None
}

impl StackHunkRanges {
    /// The tables of a stack without commits.
    pub fn new() -> (s: StackHunkRanges)
        ensures
            s@ == Seq::<TableView>::empty(),
    {
        let s = StackHunkRanges { paths: Vec::new() };
        assert(s@ =~= Seq::<TableView>::empty());
        s
    }

    /// Folds in what the commit `commit_id` did to `path`. Nothing changes
    /// where the commit was folded into that path before, or where a line
    /// number of the result does not fit in 32 bits.
    pub fn add(
        &mut self,
        stack_id: StackId,
        commit_id: ObjectId,
        path: &String,
        diffs: Vec<InputDiff>,
    ) -> (r: Result<(), RangeFault>)
        ensures
            final(self)@ == file_folded(old(self)@, stack_id, commit_id, path@, diffs@).0,
            match file_folded(old(self)@, stack_id, commit_id, path@, diffs@).1 {
                Some(fault) => r == Err::<(), RangeFault>(fault),
                None => r is Ok,
            },
    {
        match find_entry(&self.paths, path, Ghost(self@)) {
            Some(k) => {
                if self.paths[k].ranges.has_commit(&commit_id) {
                    return Err(RangeFault::DuplicateCommit);
                }
                let r = self.paths[k].ranges.add(stack_id, commit_id, diffs);
                proof {
                    lemma_position(old(self)@, path@);
                    assert(self.paths@.len() == old(self).paths@.len());
                    assert(forall|m: int|
                        0 <= m < self.paths@.len() && m != k ==> self.paths@[m] == old(self).paths@[m]);
                    assert(self.paths@[k as int].path == old(self).paths@[k as int].path);
                    if r is Ok {
                        assert(self@ =~= file_folded(old(self)@, stack_id, commit_id, path@, diffs@).0);
                    } else {
                        assert(self@ =~= old(self)@);
                    }
                }
                r
            },
            None => {
                let mut ranges = PathHunkRanges::new();
                match ranges.add(stack_id, commit_id, diffs) {
                    Err(fault) => Err(fault),
                    Ok(()) => {
                        self.paths.push(PathEntry { path: path.clone(), ranges });
                        assert(self@ =~= file_folded(old(self)@, stack_id, commit_id, path@, diffs@).0);
                        Ok(())
                    },
                }
            },
        }
    }

    /// The paths that the stack touched, in the order in which they came up.
    pub fn unique_paths(&self) -> (paths: Vec<String>)
        ensures
            paths@.len() == self@.len(),
            forall|k: int| 0 <= k < paths@.len() ==> (#[trigger] paths@[k])@ == self@[k].path,
    {
        let mut paths: Vec<String> = Vec::new();
        let mut k: usize = 0;
        while k < self.paths.len()
            invariant
                k <= self.paths.len(),
                paths@.len() == k,
                forall|m: int| 0 <= m < k ==> (#[trigger] paths@[m])@ == self@[m].path,
            decreases self.paths.len() - k,
        {
            paths.push(self.paths[k].path.clone());
            k += 1;
        }
        paths
    }

    /// The ranges of `path` that meet the `lines` lines from `start` on;
    /// none where the stack did not touch the path.
    pub fn intersection(&self, path: &String, start: i32, lines: i32) -> (found: Vec<HunkRange>)
        ensures
            found@ == match position_of(self@, path@) {
                Some(k) => intersecting(self@[k].hunks, start as int, lines as int),
                None => Seq::empty(),
            },
    {
        match find_entry(&self.paths, path, Ghost(self@)) {
            Some(k) => self.paths[k].ranges.find(start, lines),
            None => Vec::new(),
        }
    }
}

impl Default for StackHunkRanges {
    fn default() -> (s: StackHunkRanges)
        ensures
            s@ == Seq::<TableView>::empty(),
    {
        StackHunkRanges::new()
    }
}

} // verus!
