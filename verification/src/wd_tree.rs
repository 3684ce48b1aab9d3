//! The tree of the worktree: what to do to the tree of `HEAD` so that it
//! holds the worktree, item by item of the status.
//!
//! Changes of the worktree go before changes of the index: once the
//! worktree changed a path, a change of the index to it is passed over.
//! Untracked files are put aside and added last.

use vstd::prelude::*;

use crate::object_id::ObjectId;
use crate::worktree::{
    kind_of_mode, path_order, DirStatus, EntryChange, EntryKind, IndexChange, PathOrder, StatusItem, WorktreeError,
    WorktreeItem,
};

verus! {

/// What to do to the tree.
#[derive(Debug, PartialEq, Eq, Clone)]
pub enum TreeEdit {
    /// Nothing.
    Nothing,
    /// Take the path out.
    Remove(Vec<u8>),
    /// Put the entry in.
    Upsert { path: Vec<u8>, kind: EntryKind, id: ObjectId },
    /// Put the file of the worktree in, and report whether that was done.
    AddWorktreeFile(Vec<u8>),
}

/// A [`TreeEdit`] as plain values.
pub ghost enum EditView {
    Nothing,
    Remove(Seq<u8>),
    Upsert { path: Seq<u8>, kind: EntryKind, id: ObjectId },
    AddWorktreeFile(Seq<u8>),
}

impl View for TreeEdit {
    type V = EditView;

    open spec fn view(&self) -> EditView {
        match *self {
            TreeEdit::Nothing => EditView::Nothing,
            TreeEdit::Remove(path) => EditView::Remove(path@),
            TreeEdit::Upsert { path, kind, id } => EditView::Upsert { path: path@, kind, id },
            TreeEdit::AddWorktreeFile(path) => EditView::AddWorktreeFile(path@),
        }
    }
}

/// The paths that the worktree changed so far, and the untracked paths
/// put aside.
#[derive(Debug, PartialEq, Eq, Clone)]
pub struct WdTreeBuilder {
    pub changed: Vec<Vec<u8>>,
    pub untracked: Vec<Vec<u8>>,
}

/// The paths as plain values.
pub open spec fn paths_of(v: Seq<Vec<u8>>) -> Seq<Seq<u8>> {
    Seq::new(v.len(), |k: int| v[k]@)
}

/// What an item of the status asks for: the edit, the path that the
/// worktree is thereby known to have changed, and the untracked path to
/// put aside. `changed` are the paths that the worktree changed so far.
pub open spec fn asked(changed: Seq<Seq<u8>>, item: StatusItem) -> Result<
    (EditView, Option<Seq<u8>>, Option<Seq<u8>>),
    WorktreeError,
> {
    match item {
        StatusItem::TreeIndex(IndexChange::Deletion { location, .. }) => Ok(
            (
                if changed.contains(location@) {
                    EditView::Nothing
                } else {
                    EditView::Remove(location@)
                },
                None,
                None,
            ),
        ),
        StatusItem::TreeIndex(IndexChange::Addition { location, entry_mode, id }) => Ok(
            (index_edit(changed, location@, entry_mode, id), None, None),
        ),
        StatusItem::TreeIndex(IndexChange::Modification { location, entry_mode, id, .. }) => Ok(
            (index_edit(changed, location@, entry_mode, id), None, None),
        ),
        StatusItem::TreeIndex(IndexChange::Rewrite { .. }) => Err(WorktreeError::UnexpectedItem),
        StatusItem::IndexWorktree(WorktreeItem::Rewrite { .. }) => Err(WorktreeError::UnexpectedItem),
        StatusItem::IndexWorktree(WorktreeItem::DirectoryContents { entry }) => Ok(
            (
                EditView::Nothing,
                None,
                if entry.status == DirStatus::Untracked {
                    Some(entry.rela_path@)
                } else {
                    None
                },
            ),
        ),
        StatusItem::IndexWorktree(WorktreeItem::Modification { rela_path, status, .. }) => Ok(
            match status {
                EntryChange::Removed => (EditView::Remove(rela_path@), Some(rela_path@), None),
                EntryChange::NeedsUpdate => (EditView::Nothing, None, None),
                EntryChange::SubmoduleModification { checked_out_head_id } => match checked_out_head_id {
                    Some(head) => (
                        EditView::Upsert { path: rela_path@, kind: EntryKind::Commit, id: head },
                        Some(rela_path@),
                        None,
                    ),
                    None => (EditView::Nothing, None, None),
                },
                _ => (EditView::AddWorktreeFile(rela_path@), None, None),
            },
        ),
    }
}

/// The edit for an entry that the index added or modified: none where
/// the worktree changed the path, or the mode is no mode of a tree entry.
pub open spec fn index_edit(changed: Seq<Seq<u8>>, path: Seq<u8>, mode: u32, id: ObjectId) -> EditView {
    match kind_of_mode(mode) {
        Some(kind) => if changed.contains(path) {
            EditView::Nothing
        } else {
            EditView::Upsert { path, kind, id }
        },
        None => EditView::Nothing,
    }
}

/// Whether a file of `len` bytes may be added under the limit `limit`; no
/// limit is set where `limit` is zero.
pub fn within_limit(len: u64, limit: u64) -> (r: bool)
    ensures
        r == (limit == 0 || len <= limit),
{
    limit == 0 || len <= limit
}

fn holds_path(paths: &Vec<Vec<u8>>, path: &Vec<u8>) -> (r: bool)
    ensures
        r == paths_of(paths@).contains(path@),
{
    let mut k: usize = 0;
    while k < paths.len()
        invariant
            k <= paths.len(),
            forall|m: int| 0 <= m < k ==> paths_of(paths@)[m] != path@,
        decreases paths.len() - k,
    {
        match path_order(&paths[k], path) {
            PathOrder::Same => {
                assert(paths_of(paths@)[k as int] == path@);
                return true;
            },
            _ => {},
        }
        k += 1;
    }
    false
}

fn copy_path(path: &Vec<u8>) -> (r: Vec<u8>)
    ensures
        r@ == path@,
{
    let mut r: Vec<u8> = Vec::new();
    let mut k: usize = 0;
    while k < path.len()
        invariant
            k <= path.len(),
            r@ == path@.take(k as int),
        decreases path.len() - k,
    {
        r.push(path[k]);
        assert(path@.take(k + 1) =~= path@.take(k as int).push(path@[k as int]));
        k += 1;
    }
    assert(path@.take(k as int) =~= path@);
    r
}

impl WdTreeBuilder {
    /// Nothing changed, nothing put aside.
    pub fn new() -> (b: WdTreeBuilder)
        ensures
            b.changed@.len() == 0,
            b.untracked@.len() == 0,
    {
        WdTreeBuilder { changed: Vec::new(), untracked: Vec::new() }
    }

    /// Says what to do to the tree for an item of the status.
    pub fn step(&mut self, item: StatusItem) -> (r: Result<TreeEdit, WorktreeError>)
        ensures
            match asked(paths_of(old(self).changed@), item) {
                Err(e) => r == Err::<TreeEdit, WorktreeError>(e) && *final(self) == *old(self),
                Ok((edit, changes, aside)) => {
                    &&& r is Ok
                    &&& r->Ok_0@ == edit
                    &&& paths_of(final(self).changed@) == match changes {
                        Some(path) => paths_of(old(self).changed@).push(path),
                        None => paths_of(old(self).changed@),
                    }
                    &&& paths_of(final(self).untracked@) == match aside {
                        Some(path) => paths_of(old(self).untracked@).push(path),
                        None => paths_of(old(self).untracked@),
                    }
                },
            },
    {
        let ghost changed = paths_of(self.changed@);
        let ghost untracked = paths_of(self.untracked@);
        match item {
            StatusItem::TreeIndex(IndexChange::Deletion { location, .. }) => {
                if holds_path(&self.changed, &location) {
                    Ok(TreeEdit::Nothing)
                } else {
                    Ok(TreeEdit::Remove(location))
                }
            },
            StatusItem::TreeIndex(IndexChange::Addition { location, entry_mode, id }) => Ok(
                self.index_entry(location, entry_mode, id),
            ),
            StatusItem::TreeIndex(IndexChange::Modification { location, entry_mode, id, .. }) => Ok(
                self.index_entry(location, entry_mode, id),
            ),
            StatusItem::TreeIndex(IndexChange::Rewrite { .. }) => Err(WorktreeError::UnexpectedItem),
            StatusItem::IndexWorktree(WorktreeItem::Rewrite { .. }) => Err(WorktreeError::UnexpectedItem),
            StatusItem::IndexWorktree(WorktreeItem::DirectoryContents { entry }) => {
                match entry.status {
                    DirStatus::Untracked => {
                        self.untracked.push(entry.rela_path);
                        assert(paths_of(self.untracked@) =~= untracked.push(entry.rela_path@));
                    },
                    _ => {},
                }
                Ok(TreeEdit::Nothing)
            },
            StatusItem::IndexWorktree(WorktreeItem::Modification { rela_path, status, .. }) => {
                match status {
                    EntryChange::Removed => {
                        self.changed.push(copy_path(&rela_path));
                        assert(paths_of(self.changed@) =~= changed.push(rela_path@));
                        Ok(TreeEdit::Remove(rela_path))
                    },
                    EntryChange::NeedsUpdate => Ok(TreeEdit::Nothing),
                    EntryChange::SubmoduleModification { checked_out_head_id: Some(head) } => {
                        self.changed.push(copy_path(&rela_path));
                        assert(paths_of(self.changed@) =~= changed.push(rela_path@));
                        Ok(TreeEdit::Upsert { path: rela_path, kind: EntryKind::Commit, id: head })
                    },
                    EntryChange::SubmoduleModification { checked_out_head_id: None } => Ok(TreeEdit::Nothing),
                    _ => Ok(TreeEdit::AddWorktreeFile(rela_path)),
                }
            },
        }
    }

    fn index_entry(&self, path: Vec<u8>, mode: u32, id: ObjectId) -> (r: TreeEdit)
        ensures
            r@ == index_edit(paths_of(self.changed@), path@, mode, id),
    {
        match crate::worktree::into_tree_entry_kind(mode) {
            Ok(kind) => {
                if holds_path(&self.changed, &path) {
                    TreeEdit::Nothing
                } else {
                    TreeEdit::Upsert { path, kind, id }
                }
            },
            Err(_) => TreeEdit::Nothing,
        }
    }

    /// Takes note of whether the file of the worktree at `path` was put
    /// into the tree: then the worktree changed the path.
    pub fn file_added(&mut self, path: Vec<u8>, added: bool)
        ensures
            final(self).untracked == old(self).untracked,
            paths_of(final(self).changed@) == if added {
                paths_of(old(self).changed@).push(path@)
            } else {
                paths_of(old(self).changed@)
            },
    {
        let ghost changed = paths_of(self.changed@);
        if added {
            self.changed.push(path);
            assert(paths_of(self.changed@) =~= changed.push(path@));
        }
    }

    /// The untracked paths that were put aside, to be added last.
    pub fn finish(self) -> (r: Vec<Vec<u8>>)
        ensures
            r == self.untracked,
    {
        self.untracked
    }
}

} // verus!
