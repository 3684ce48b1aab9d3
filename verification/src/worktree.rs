//! The changes of the worktree against the tree of `HEAD`.
//!
//! The status of a repository compares the tree with the index and the
//! index with the worktree. Each item of the status becomes a change to a
//! path, tagged with the comparison it comes from; then each path keeps one
//! change, that of the worktree before that of the index, and the others
//! are listed as ignored.

use vstd::prelude::*;

use crate::object_id::{null_id, ObjectId};

verus! {

/// What an entry of a tree is.
#[derive(Debug, PartialEq, Eq, Clone, Copy, Structural)]
pub enum EntryKind {
    /// A directory.
    Tree,
    /// A file that is not executable.
    Blob,
    /// A file that is executable.
    BlobExecutable,
    /// A symbolic link.
    Link,
    /// The commit of a submodule.
    Commit,
}

/// Content and kind of an entry.
#[derive(Debug, PartialEq, Eq, Clone, Copy)]
pub struct ChangeState {
    /// The hash of the content; null where the content was not hashed yet.
    pub id: ObjectId,
    pub kind: EntryKind,
}

/// How the kind of an entry changed.
#[derive(Debug, PartialEq, Eq, Clone, Copy, Structural)]
pub enum ModeFlags {
    ExecutableBitAdded,
    ExecutableBitRemoved,
    TypeChange,
}

/// What happened to a path.
#[derive(Debug, PartialEq, Eq, Clone)]
pub enum TreeStatus {
    Addition { state: ChangeState, is_untracked: bool },
    Deletion { previous_state: ChangeState },
    Modification { previous_state: ChangeState, state: ChangeState, flags: Option<ModeFlags> },
    Rename {
        previous_path: Vec<u8>,
        previous_state: ChangeState,
        state: ChangeState,
        flags: Option<ModeFlags>,
    },
}

/// A change to a path.
#[derive(Debug, PartialEq, Eq, Clone)]
pub struct TreeChange {
    pub path: Vec<u8>,
    pub status: TreeStatus,
}

/// Why a change is not among the changes.
#[derive(Debug, PartialEq, Eq, Clone, Copy, Structural)]
pub enum IgnoredWorktreeTreeChangeStatus {
    /// The path is in conflict.
    Conflict,
    /// A change of the worktree to the same path took its place.
    TreeIndex,
}

/// A change that is not among the changes.
#[derive(Debug, PartialEq, Eq, Clone)]
pub struct IgnoredWorktreeChange {
    pub path: Vec<u8>,
    pub status: IgnoredWorktreeTreeChangeStatus,
}

/// What would have to be added to the tree of `HEAD` to get the worktree.
#[derive(Debug, PartialEq, Eq, Clone)]
pub struct WorktreeChanges {
    pub changes: Vec<TreeChange>,
    pub ignored_changes: Vec<IgnoredWorktreeChange>,
}

/// Which comparison a change comes from. The worktree goes before the index.
#[derive(Debug, PartialEq, Eq, Clone, Copy, Structural)]
pub enum Origin {
    /// The tree of `HEAD` against the index.
    TreeIndex,
    /// The index against the worktree.
    IndexWorktree,
}

/// Why the changes cannot be listed.
#[derive(Debug, PartialEq, Eq, Clone, Copy, Structural)]
pub enum WorktreeError {
    /// The mode of an entry of the index is no mode of a tree entry.
    InvalidEntryMode(u32),
    /// Nothing is known of the kind of an untracked item.
    NoTypeInformation,
    /// The file could not be examined.
    NoMetadata,
    /// The status holds an item that its configuration rules out.
    UnexpectedItem,
}

// ---------------------------------------------------------------------------
// The items of a status
// ---------------------------------------------------------------------------
/// A change between the tree of `HEAD` and the index.
#[derive(Debug, PartialEq, Eq, Clone)]
pub enum IndexChange {
    Addition { location: Vec<u8>, entry_mode: u32, id: ObjectId },
    Deletion { location: Vec<u8>, entry_mode: u32, id: ObjectId },
    Modification {
        location: Vec<u8>,
        previous_entry_mode: u32,
        previous_id: ObjectId,
        entry_mode: u32,
        id: ObjectId,
    },
    Rewrite {
        source_location: Vec<u8>,
        source_entry_mode: u32,
        source_id: ObjectId,
        location: Vec<u8>,
        entry_mode: u32,
        id: ObjectId,
    },
}

/// What an item of a directory is on disk.
#[derive(Debug, PartialEq, Eq, Clone, Copy, Structural)]
pub enum DiskKind {
    /// A pipe, a socket or a device.
    Untrackable,
    File,
    Symlink,
    Directory,
    Repository,
}

/// What the walk of the directories makes of an item.
#[derive(Debug, PartialEq, Eq, Clone, Copy, Structural)]
pub enum DirStatus {
    Pruned,
    InIndex,
    Ignored,
    Untracked,
}

/// An item of the walk of the directories. `executable` tells whether a
/// file may be executed; it is `None` where the file could not be examined.
#[derive(Debug, PartialEq, Eq, Clone)]
pub struct DirEntry {
    pub rela_path: Vec<u8>,
    pub disk_kind: Option<DiskKind>,
    pub index_kind: Option<DiskKind>,
    pub status: DirStatus,
    pub executable: Option<bool>,
}

/// How an entry of the index differs from the worktree.
#[derive(Debug, PartialEq, Eq, Clone, Copy)]
pub enum EntryChange {
    Conflict,
    Removed,
    Type { worktree_mode: u32 },
    Modification { executable_bit_changed: bool },
    SubmoduleModification { checked_out_head_id: Option<ObjectId> },
    IntentToAdd,
    NeedsUpdate,
}

/// Where a renamed item of the worktree comes from.
#[derive(Debug, PartialEq, Eq, Clone)]
pub enum RewriteSource {
    RewriteFromIndex { source_rela_path: Vec<u8>, source_entry_mode: u32, source_id: ObjectId },
    CopyFromDirectoryEntry { source_dirwalk_entry: DirEntry, source_dirwalk_entry_id: ObjectId },
}

/// A change between the index and the worktree.
#[derive(Debug, PartialEq, Eq, Clone)]
pub enum WorktreeItem {
    Modification { rela_path: Vec<u8>, entry_mode: u32, entry_id: ObjectId, status: EntryChange },
    DirectoryContents { entry: DirEntry },
    Rewrite { source: RewriteSource, dirwalk_entry: DirEntry, dirwalk_entry_id: ObjectId },
}

/// An item of the status of a repository.
#[derive(Debug, PartialEq, Eq, Clone)]
pub enum StatusItem {
    TreeIndex(IndexChange),
    IndexWorktree(WorktreeItem),
}

// ---------------------------------------------------------------------------
// Kinds and flags
// ---------------------------------------------------------------------------
/// The kind of tree entry that the mode of an index entry stands for.
///
/// A mode stands for a tree entry where it is that of a directory, a link
/// or a submodule, or has the bit of a regular file. Of its lower sixteen
/// bits the type bits then decide: a file is executable where the owner may
/// execute it, and the type bits of file and directory together count as a
/// directory.
pub open spec fn kind_of_mode(mode: u32) -> Option<EntryKind> {
    let low = mode & 0xffff;
    let entry_type = low & 0o170000;
    if !(mode == 0o040000 || mode == 0o120000 || mode == 0o160000 || mode & 0o100000 == 0o100000) {
        None
    } else if entry_type == 0o140000 || entry_type == 0o040000 {
        Some(EntryKind::Tree)
    } else if entry_type == 0o100000 {
        if low & 0o100 == 0o100 {
            Some(EntryKind::BlobExecutable)
        } else {
            Some(EntryKind::Blob)
        }
    } else if entry_type == 0o120000 {
        Some(EntryKind::Link)
    } else {
        Some(EntryKind::Commit)
    }
}

/// The kind of tree entry that the mode of an index entry stands for, if
/// it stands for one.
fn tree_entry_kind(mode: u32) -> (r: Option<EntryKind>)
    ensures
        r == kind_of_mode(mode),
{
    let low = mode & 0xffff;
    let entry_type = low & 0o170000;
    if !(mode == 0o040000 || mode == 0o120000 || mode == 0o160000 || mode & 0o100000 == 0o100000) {
        None
    } else if entry_type == 0o140000 || entry_type == 0o040000 {
        Some(EntryKind::Tree)
    } else if entry_type == 0o100000 {
        if low & 0o100 == 0o100 {
            Some(EntryKind::BlobExecutable)
        } else {
            Some(EntryKind::Blob)
        }
    } else if entry_type == 0o120000 {
        Some(EntryKind::Link)
    } else {
        Some(EntryKind::Commit)
    }
}

/// The kind of tree entry that a mode stands for, or the error that names the mode.
pub open spec fn mode_kind(mode: u32) -> Result<EntryKind, WorktreeError> {
    match kind_of_mode(mode) {
        Some(kind) => Ok(kind),
        None => Err(WorktreeError::InvalidEntryMode(mode)),
    }
}

/// The kind of tree entry that the mode of an index entry stands for.
pub fn into_tree_entry_kind(mode: u32) -> (r: Result<EntryKind, WorktreeError>)
    ensures
        r == mode_kind(mode),
{
    match tree_entry_kind(mode) {
        Some(kind) => Ok(kind),
        None => Err(WorktreeError::InvalidEntryMode(mode)),
    }
}

/// How the kind changed from `old` to `new`: the executable bit of a file
/// was set or cleared, or the type changed; `None` where the kind stayed.
pub open spec fn flags_of(old: EntryKind, new: EntryKind) -> Option<ModeFlags> {
    if old == EntryKind::Blob && new == EntryKind::BlobExecutable {
        Some(ModeFlags::ExecutableBitAdded)
    } else if old == EntryKind::BlobExecutable && new == EntryKind::Blob {
        Some(ModeFlags::ExecutableBitRemoved)
    } else if old != new {
        Some(ModeFlags::TypeChange)
    } else {
        None
    }
}

impl ModeFlags {
    /// How the kind changed from `old` to `new`.
    pub fn calculate(old: &ChangeState, new: &ChangeState) -> (r: Option<ModeFlags>)
        ensures
            r == flags_of(old.kind, new.kind),
    {
        match (old.kind, new.kind) {
            (EntryKind::Blob, EntryKind::BlobExecutable) => Some(ModeFlags::ExecutableBitAdded),
            (EntryKind::BlobExecutable, EntryKind::Blob) => Some(ModeFlags::ExecutableBitRemoved),
            (a, b) => if a == b {
                None
            } else {
                Some(ModeFlags::TypeChange)
            },
        }
    }
}

/// The kind of tree entry that an item of a directory becomes; `Ok(None)`
/// for what cannot be tracked. What is on disk counts before what the index
/// says.
pub open spec fn disk_kind(
    on_disk: Option<DiskKind>,
    in_index: Option<DiskKind>,
    executable: Option<bool>,
) -> Result<Option<EntryKind>, WorktreeError> {
    let kind = if on_disk is Some { on_disk } else { in_index };
    match kind {
        None => Err(WorktreeError::NoTypeInformation),
        Some(DiskKind::Repository) => Ok(Some(EntryKind::Commit)),
        Some(DiskKind::Directory) => Err(WorktreeError::UnexpectedItem),
        Some(DiskKind::Untrackable) => Ok(None),
        Some(DiskKind::File) => match executable {
            None => Err(WorktreeError::NoMetadata),
            Some(true) => Ok(Some(EntryKind::BlobExecutable)),
            Some(false) => Ok(Some(EntryKind::Blob)),
        },
        Some(DiskKind::Symlink) => Ok(Some(EntryKind::Link)),
    }
}

/// The kind of tree entry that an item of a directory becomes.
pub fn disk_kind_to_entry_kind(
    on_disk: Option<DiskKind>,
    in_index: Option<DiskKind>,
    executable: Option<bool>,
) -> (r: Result<Option<EntryKind>, WorktreeError>)
    ensures
        r == disk_kind(on_disk, in_index, executable),
{
    let kind = match on_disk {
        Some(k) => Some(k),
        None => in_index,
    };
    match kind {
        None => Err(WorktreeError::NoTypeInformation),
        Some(DiskKind::Repository) => Ok(Some(EntryKind::Commit)),
        Some(DiskKind::Directory) => Err(WorktreeError::UnexpectedItem),
        Some(DiskKind::Untrackable) => Ok(None),
        Some(DiskKind::File) => match executable {
            None => Err(WorktreeError::NoMetadata),
            Some(true) => Ok(Some(EntryKind::BlobExecutable)),
            Some(false) => Ok(Some(EntryKind::Blob)),
        },
        Some(DiskKind::Symlink) => Ok(Some(EntryKind::Link)),
    }
}

// ---------------------------------------------------------------------------
// From an item of the status to a change
// ---------------------------------------------------------------------------
/// A [`TreeStatus`] as plain values.
pub ghost enum StatusView {
    Addition { state: ChangeState, is_untracked: bool },
    Deletion { previous_state: ChangeState },
    Modification { previous_state: ChangeState, state: ChangeState, flags: Option<ModeFlags> },
    Rename {
        previous_path: Seq<u8>,
        previous_state: ChangeState,
        state: ChangeState,
        flags: Option<ModeFlags>,
    },
}

/// A [`TreeChange`] as plain values.
pub ghost struct ChangeView {
    pub path: Seq<u8>,
    pub status: StatusView,
}

/// A change and the comparison it comes from.
pub ghost struct Tagged {
    pub origin: Origin,
    pub change: ChangeView,
}

/// What an item of the status becomes.
pub ghost enum Conversion {
    /// A change to a path.
    Change(Tagged),
    /// A path in conflict, which is listed as ignored.
    Conflict(Seq<u8>),
    /// Nothing: the item cannot be committed.
    Skip,
}

impl View for TreeStatus {
    type V = StatusView;

    open spec fn view(&self) -> StatusView {
        match *self {
            TreeStatus::Addition { state, is_untracked } => StatusView::Addition { state, is_untracked },
            TreeStatus::Deletion { previous_state } => StatusView::Deletion { previous_state },
            TreeStatus::Modification { previous_state, state, flags } => StatusView::Modification {
                previous_state,
                state,
                flags,
            },
            TreeStatus::Rename { previous_path, previous_state, state, flags } => StatusView::Rename {
                previous_path: previous_path@,
                previous_state,
                state,
                flags,
            },
        }
    }
}

impl View for TreeChange {
    type V = ChangeView;

    open spec fn view(&self) -> ChangeView {
        ChangeView { path: self.path@, status: self.status@ }
    }
}

/// What an item of the status becomes.
#[derive(Debug, PartialEq, Eq, Clone)]
pub enum Converted {
    /// A change to a path, and the comparison it comes from.
    Change(Origin, TreeChange),
    /// A path in conflict, which is listed as ignored.
    Conflict(Vec<u8>),
    /// Nothing: the item cannot be committed.
    Skip,
}

impl View for Converted {
    type V = Conversion;

    open spec fn view(&self) -> Conversion {
        match *self {
            Converted::Change(origin, change) => Conversion::Change(Tagged { origin, change: change@ }),
            Converted::Conflict(path) => Conversion::Conflict(path@),
            Converted::Skip => Conversion::Skip,
        }
    }
}

/// The change to `path` with the status `status`.
pub open spec fn change_to(origin: Origin, path: Seq<u8>, status: StatusView) -> Conversion {
    Conversion::Change(Tagged { origin, change: ChangeView { path, status } })
}

/// The modification from `previous_state` to `state`, with the flags of
/// their kinds.
pub open spec fn modified(previous_state: ChangeState, state: ChangeState) -> StatusView {
    StatusView::Modification {
        previous_state,
        state,
        flags: flags_of(previous_state.kind, state.kind),
    }
}

/// The rename from `previous_path`, with the flags of the two kinds.
pub open spec fn renamed(previous_path: Seq<u8>, previous_state: ChangeState, state: ChangeState) -> StatusView {
    StatusView::Rename {
        previous_path,
        previous_state,
        state,
        flags: flags_of(previous_state.kind, state.kind),
    }
}

/// The kind of a file whose executable bit was toggled.
pub open spec fn toggled(kind: EntryKind) -> EntryKind {
    if kind == EntryKind::BlobExecutable {
        EntryKind::Blob
    } else {
        EntryKind::BlobExecutable
    }
}

/// What a change between the tree and the index becomes: a change that
/// keeps the identifiers and the kinds of both sides.
pub open spec fn index_converted(change: IndexChange) -> Result<Conversion, WorktreeError> {
    match change {
        IndexChange::Deletion { location, entry_mode, id } => match mode_kind(entry_mode) {
            Err(e) => Err(e),
            Ok(kind) => Ok(
                change_to(
                    Origin::TreeIndex,
                    location@,
                    StatusView::Deletion { previous_state: ChangeState { id, kind } },
                ),
            ),
        },
        IndexChange::Addition { location, entry_mode, id } => match mode_kind(entry_mode) {
            Err(e) => Err(e),
            Ok(kind) => Ok(
                change_to(
                    Origin::TreeIndex,
                    location@,
                    StatusView::Addition { state: ChangeState { id, kind }, is_untracked: false },
                ),
            ),
        },
        IndexChange::Modification { location, previous_entry_mode, previous_id, entry_mode, id } => match (
            mode_kind(previous_entry_mode),
            mode_kind(entry_mode),
        ) {
            (Err(e), _) => Err(e),
            (Ok(_), Err(e)) => Err(e),
            (Ok(previous), Ok(kind)) => Ok(
                change_to(
                    Origin::TreeIndex,
                    location@,
                    modified(ChangeState { id: previous_id, kind: previous }, ChangeState { id, kind }),
                ),
            ),
        },
        IndexChange::Rewrite {
            source_location,
            source_entry_mode,
            source_id,
            location,
            entry_mode,
            id,
        } => match (mode_kind(source_entry_mode), mode_kind(entry_mode)) {
            (Err(e), _) => Err(e),
            (Ok(_), Err(e)) => Err(e),
            (Ok(previous), Ok(kind)) => Ok(
                change_to(
                    Origin::TreeIndex,
                    location@,
                    renamed(
                        source_location@,
                        ChangeState { id: source_id, kind: previous },
                        ChangeState { id, kind },
                    ),
                ),
            ),
        },
    }
}

/// What the difference of an index entry from the worktree becomes. The
/// content of the worktree is not hashed, so its identifier is null.
pub open spec fn entry_converted(
    rela_path: Seq<u8>,
    entry_mode: u32,
    entry_id: ObjectId,
    status: EntryChange,
) -> Result<Conversion, WorktreeError> {
    match status {
        EntryChange::Conflict => Ok(Conversion::Conflict(rela_path)),
        EntryChange::NeedsUpdate => Err(WorktreeError::UnexpectedItem),
        EntryChange::SubmoduleModification { checked_out_head_id: None } => Ok(Conversion::Skip),
        _ => match mode_kind(entry_mode) {
            Err(e) => Err(e),
            Ok(kind) => {
                let previous_state = ChangeState { id: entry_id, kind };
                match status {
                    EntryChange::Removed => Ok(
                        change_to(Origin::IndexWorktree, rela_path, StatusView::Deletion { previous_state }),
                    ),
                    EntryChange::Type { worktree_mode } => match mode_kind(worktree_mode) {
                        Err(e) => Err(e),
                        Ok(new_kind) => Ok(
                            change_to(
                                Origin::IndexWorktree,
                                rela_path,
                                modified(previous_state, ChangeState { id: null_id(), kind: new_kind }),
                            ),
                        ),
                    },
                    EntryChange::Modification { executable_bit_changed } => Ok(
                        change_to(
                            Origin::IndexWorktree,
                            rela_path,
                            modified(
                                previous_state,
                                ChangeState {
                                    id: null_id(),
                                    kind: if executable_bit_changed {
                                        toggled(kind)
                                    } else {
                                        kind
                                    },
                                },
                            ),
                        ),
                    ),
                    EntryChange::IntentToAdd => Ok(
                        change_to(
                            Origin::IndexWorktree,
                            rela_path,
                            StatusView::Addition {
                                state: ChangeState { id: null_id(), kind },
                                is_untracked: false,
                            },
                        ),
                    ),
                    EntryChange::SubmoduleModification { checked_out_head_id } => Ok(
                        change_to(
                            Origin::IndexWorktree,
                            rela_path,
                            modified(previous_state, ChangeState { id: checked_out_head_id->0, kind }),
                        ),
                    ),
                    _ => Err(WorktreeError::UnexpectedItem),
                }
            },
        },
    }
}

/// The kind of tree entry that an item of the walk becomes.
pub open spec fn walked_kind(entry: DirEntry) -> Result<Option<EntryKind>, WorktreeError> {
    disk_kind(entry.disk_kind, entry.index_kind, entry.executable)
}

/// What an item of the walk of the directories becomes: an untracked
/// addition, or nothing where it cannot be tracked.
pub open spec fn walked_converted(entry: DirEntry) -> Result<Conversion, WorktreeError> {
    if entry.status != DirStatus::Untracked {
        Err(WorktreeError::UnexpectedItem)
    } else {
        match walked_kind(entry) {
            Err(e) => Err(e),
            Ok(None) => Ok(Conversion::Skip),
            Ok(Some(kind)) => Ok(
                change_to(
                    Origin::IndexWorktree,
                    entry.rela_path@,
                    StatusView::Addition { state: ChangeState { id: null_id(), kind }, is_untracked: true },
                ),
            ),
        }
    }
}

/// The path that a renamed item comes from.
pub open spec fn source_path(source: RewriteSource) -> Seq<u8> {
    match source {
        RewriteSource::RewriteFromIndex { source_rela_path, .. } => source_rela_path@,
        RewriteSource::CopyFromDirectoryEntry { source_dirwalk_entry, .. } => source_dirwalk_entry.rela_path@,
    }
}

/// The state that a renamed item comes from; `Ok(None)` where it cannot be tracked.
pub open spec fn source_state(source: RewriteSource) -> Result<Option<ChangeState>, WorktreeError> {
    match source {
        RewriteSource::RewriteFromIndex { source_entry_mode, source_id, .. } => match mode_kind(
            source_entry_mode,
        ) {
            Err(e) => Err(e),
            Ok(kind) => Ok(Some(ChangeState { id: source_id, kind })),
        },
        RewriteSource::CopyFromDirectoryEntry { source_dirwalk_entry, source_dirwalk_entry_id } => match walked_kind(
            source_dirwalk_entry,
        ) {
            Err(e) => Err(e),
            Ok(None) => Ok(None),
            Ok(Some(kind)) => Ok(Some(ChangeState { id: source_dirwalk_entry_id, kind })),
        },
    }
}

/// What a rename in the worktree becomes; nothing where either side cannot
/// be tracked.
pub open spec fn rewrite_converted(
    source: RewriteSource,
    dirwalk_entry: DirEntry,
    dirwalk_entry_id: ObjectId,
) -> Result<Conversion, WorktreeError> {
    match source_state(source) {
        Err(e) => Err(e),
        Ok(None) => Ok(Conversion::Skip),
        Ok(Some(previous_state)) => match walked_kind(dirwalk_entry) {
            Err(e) => Err(e),
            Ok(None) => Ok(Conversion::Skip),
            Ok(Some(kind)) => Ok(
                change_to(
                    Origin::IndexWorktree,
                    dirwalk_entry.rela_path@,
                    renamed(
                        source_path(source),
                        previous_state,
                        ChangeState { id: dirwalk_entry_id, kind },
                    ),
                ),
            ),
        },
    }
}

/// What an item of the status becomes.
pub open spec fn converted(item: StatusItem) -> Result<Conversion, WorktreeError> {
    match item {
        StatusItem::TreeIndex(change) => index_converted(change),
        StatusItem::IndexWorktree(WorktreeItem::Modification { rela_path, entry_mode, entry_id, status }) => entry_converted(
            rela_path@,
            entry_mode,
            entry_id,
            status,
        ),
        StatusItem::IndexWorktree(WorktreeItem::DirectoryContents { entry }) => walked_converted(entry),
        StatusItem::IndexWorktree(WorktreeItem::Rewrite { source, dirwalk_entry, dirwalk_entry_id }) => rewrite_converted(
            source,
            dirwalk_entry,
            dirwalk_entry_id,
        ),
    }
}

/// Whether `r` is what the conversion `expected` asks for.
pub open spec fn is_conversion(r: Result<Converted, WorktreeError>, expected: Result<Conversion, WorktreeError>) -> bool {
    match expected {
        Ok(c) => r is Ok && r->Ok_0@ == c,
        Err(e) => r == Err::<Converted, WorktreeError>(e),
    }
}

fn change(origin: Origin, path: Vec<u8>, status: TreeStatus) -> (r: Converted)
    ensures
        r@ == change_to(origin, path@, status@),
{
    Converted::Change(origin, TreeChange { path, status })
}

fn modification(previous_state: ChangeState, state: ChangeState) -> (r: TreeStatus)
    ensures
        r@ == modified(previous_state, state),
{
    TreeStatus::Modification { previous_state, state, flags: ModeFlags::calculate(&previous_state, &state) }
}

fn rename(previous_path: Vec<u8>, previous_state: ChangeState, state: ChangeState) -> (r: TreeStatus)
    ensures
        r@ == renamed(previous_path@, previous_state, state),
{
    TreeStatus::Rename {
        previous_path,
        previous_state,
        state,
        flags: ModeFlags::calculate(&previous_state, &state),
    }
}

fn convert_index(item: IndexChange) -> (r: Result<Converted, WorktreeError>)
    ensures
        is_conversion(r, index_converted(item)),
{
    match item {
        IndexChange::Deletion { location, entry_mode, id } => {
            let kind = into_tree_entry_kind(entry_mode)?;
            Ok(change(Origin::TreeIndex, location, TreeStatus::Deletion { previous_state: ChangeState { id, kind } }))
        },
        IndexChange::Addition { location, entry_mode, id } => {
            let kind = into_tree_entry_kind(entry_mode)?;
            Ok(
                change(
                    Origin::TreeIndex,
                    location,
                    TreeStatus::Addition { state: ChangeState { id, kind }, is_untracked: false },
                ),
            )
        },
        IndexChange::Modification { location, previous_entry_mode, previous_id, entry_mode, id } => {
            let previous = into_tree_entry_kind(previous_entry_mode)?;
            let kind = into_tree_entry_kind(entry_mode)?;
            Ok(
                change(
                    Origin::TreeIndex,
                    location,
                    modification(ChangeState { id: previous_id, kind: previous }, ChangeState { id, kind }),
                ),
            )
        },
        IndexChange::Rewrite { source_location, source_entry_mode, source_id, location, entry_mode, id } => {
            let previous = into_tree_entry_kind(source_entry_mode)?;
            let kind = into_tree_entry_kind(entry_mode)?;
            Ok(
                change(
                    Origin::TreeIndex,
                    location,
                    rename(source_location, ChangeState { id: source_id, kind: previous }, ChangeState { id, kind }),
                ),
            )
        },
    }
}

fn convert_entry(rela_path: Vec<u8>, entry_mode: u32, entry_id: ObjectId, status: EntryChange) -> (r: Result<
    Converted,
    WorktreeError,
>)
    ensures
        is_conversion(r, entry_converted(rela_path@, entry_mode, entry_id, status)),
{
    match status {
        EntryChange::Conflict => Ok(Converted::Conflict(rela_path)),
        EntryChange::NeedsUpdate => Err(WorktreeError::UnexpectedItem),
        EntryChange::SubmoduleModification { checked_out_head_id: None } => Ok(Converted::Skip),
        EntryChange::Removed => {
            let kind = into_tree_entry_kind(entry_mode)?;
            Ok(
                change(
                    Origin::IndexWorktree,
                    rela_path,
                    TreeStatus::Deletion { previous_state: ChangeState { id: entry_id, kind } },
                ),
            )
        },
        EntryChange::Type { worktree_mode } => {
            let kind = into_tree_entry_kind(entry_mode)?;
            let new_kind = into_tree_entry_kind(worktree_mode)?;
            Ok(
                change(
                    Origin::IndexWorktree,
                    rela_path,
                    modification(
                        ChangeState { id: entry_id, kind },
                        ChangeState { id: ObjectId::null(), kind: new_kind },
                    ),
                ),
            )
        },
        EntryChange::Modification { executable_bit_changed } => {
            let kind = into_tree_entry_kind(entry_mode)?;
            let new_kind = if executable_bit_changed {
                match kind {
                    EntryKind::BlobExecutable => EntryKind::Blob,
                    _ => EntryKind::BlobExecutable,
                }
            } else {
                kind
            };
            Ok(
                change(
                    Origin::IndexWorktree,
                    rela_path,
                    modification(
                        ChangeState { id: entry_id, kind },
                        ChangeState { id: ObjectId::null(), kind: new_kind },
                    ),
                ),
            )
        },
        EntryChange::IntentToAdd => {
            let kind = into_tree_entry_kind(entry_mode)?;
            Ok(
                change(
                    Origin::IndexWorktree,
                    rela_path,
                    TreeStatus::Addition { state: ChangeState { id: ObjectId::null(), kind }, is_untracked: false },
                ),
            )
        },
        EntryChange::SubmoduleModification { checked_out_head_id: Some(head) } => {
            let kind = into_tree_entry_kind(entry_mode)?;
            Ok(
                change(
                    Origin::IndexWorktree,
                    rela_path,
                    modification(ChangeState { id: entry_id, kind }, ChangeState { id: head, kind }),
                ),
            )
        },
    }
}

fn walked_entry_kind(entry: &DirEntry) -> (r: Result<Option<EntryKind>, WorktreeError>)
    ensures
        r == walked_kind(*entry),
{
    disk_kind_to_entry_kind(entry.disk_kind, entry.index_kind, entry.executable)
}

fn convert_walked(entry: DirEntry) -> (r: Result<Converted, WorktreeError>)
    ensures
        is_conversion(r, walked_converted(entry)),
{
    match entry.status {
        DirStatus::Untracked => {},
        _ => {
            return Err(WorktreeError::UnexpectedItem);
        },
    }
    match walked_entry_kind(&entry)? {
        None => Ok(Converted::Skip),
        Some(kind) => Ok(
            change(
                Origin::IndexWorktree,
                entry.rela_path,
                TreeStatus::Addition { state: ChangeState { id: ObjectId::null(), kind }, is_untracked: true },
            ),
        ),
    }
}

fn convert_rewrite(source: RewriteSource, dirwalk_entry: DirEntry, dirwalk_entry_id: ObjectId) -> (r: Result<
    Converted,
    WorktreeError,
>)
    ensures
        is_conversion(r, rewrite_converted(source, dirwalk_entry, dirwalk_entry_id)),
{
    let (previous_path, previous_state) = match source {
        RewriteSource::RewriteFromIndex { source_rela_path, source_entry_mode, source_id } => {
            let kind = into_tree_entry_kind(source_entry_mode)?;
            (source_rela_path, ChangeState { id: source_id, kind })
        },
        RewriteSource::CopyFromDirectoryEntry { source_dirwalk_entry, source_dirwalk_entry_id } => {
            match walked_entry_kind(&source_dirwalk_entry)? {
                None => {
                    return Ok(Converted::Skip);
                },
                Some(kind) => (source_dirwalk_entry.rela_path, ChangeState { id: source_dirwalk_entry_id, kind }),
            }
        },
    };
    match walked_entry_kind(&dirwalk_entry)? {
        None => Ok(Converted::Skip),
        Some(kind) => Ok(
            change(
                Origin::IndexWorktree,
                dirwalk_entry.rela_path,
                rename(previous_path, previous_state, ChangeState { id: dirwalk_entry_id, kind }),
            ),
        ),
    }
}

/// Turns an item of the status into a change to a path.
pub fn convert(item: StatusItem) -> (r: Result<Converted, WorktreeError>)
    ensures
        is_conversion(r, converted(item)),
{
    match item {
        StatusItem::TreeIndex(change) => convert_index(change),
        StatusItem::IndexWorktree(WorktreeItem::Modification { rela_path, entry_mode, entry_id, status }) => convert_entry(
            rela_path,
            entry_mode,
            entry_id,
            status,
        ),
        StatusItem::IndexWorktree(WorktreeItem::DirectoryContents { entry }) => convert_walked(entry),
        StatusItem::IndexWorktree(WorktreeItem::Rewrite { source, dirwalk_entry, dirwalk_entry_id }) => convert_rewrite(
            source,
            dirwalk_entry,
            dirwalk_entry_id,
        ),
    }
}

// ---------------------------------------------------------------------------
// The order of the changes
// ---------------------------------------------------------------------------
/// Whether `a` comes before `b` where bytes are compared one by one: at the
/// first byte that differs `a` has the smaller one, or `a` ends first.
pub open spec fn lex_less(a: Seq<u8>, b: Seq<u8>) -> bool
    decreases a.len(),
{
    if b.len() == 0 {
        false
    } else if a.len() == 0 {
        true
    } else if a[0] != b[0] {
        a[0] < b[0]
    } else {
        lex_less(a.drop_first(), b.drop_first())
    }
}

/// Whether `x` is sorted before `y`: by path, and on one path the change
/// of the worktree before that of the index.
pub open spec fn goes_before(x: Tagged, y: Tagged) -> bool {
    lex_less(x.change.path, y.change.path) || (x.change.path == y.change.path && x.origin
        == Origin::IndexWorktree && y.origin == Origin::TreeIndex)
}

/// `s` with `x` put in its place: behind everything that `x` does not go before.
pub open spec fn inserted(s: Seq<Tagged>, x: Tagged) -> Seq<Tagged>
    decreases s.len(),
{
    if s.len() > 0 && goes_before(x, s.last()) {
        inserted(s.drop_last(), x).push(s.last())
    } else {
        s.push(x)
    }
}

/// `s` sorted; what is equal in rank stays in the order of `s`.
pub open spec fn sorted(s: Seq<Tagged>) -> Seq<Tagged>
    decreases s.len(),
{
    if s.len() == 0 {
        Seq::empty()
    } else {
        inserted(sorted(s.drop_last()), s.last())
    }
}

/// Of the first `n` of `s`, the changes that are the first of their path in a row.
pub open spec fn kept(s: Seq<Tagged>, n: int) -> Seq<ChangeView>
    decreases n,
{
    if n <= 0 {
        Seq::empty()
    } else if n >= 2 && s[n - 2].change.path == s[n - 1].change.path {
        kept(s, n - 1)
    } else {
        kept(s, n - 1).push(s[n - 1].change)
    }
}

/// Of the first `n` of `s`, the paths of the changes that follow a change
/// to the same path.
pub open spec fn dropped(s: Seq<Tagged>, n: int) -> Seq<Seq<u8>>
    decreases n,
{
    if n <= 0 {
        Seq::empty()
    } else if n >= 2 && s[n - 2].change.path == s[n - 1].change.path {
        dropped(s, n - 1).push(s[n - 1].change.path)
    } else {
        dropped(s, n - 1)
    }
}

/// An [`IgnoredWorktreeChange`] as plain values.
pub ghost struct IgnoredView {
    pub path: Seq<u8>,
    pub status: IgnoredWorktreeTreeChangeStatus,
}

impl View for IgnoredWorktreeChange {
    type V = IgnoredView;

    open spec fn view(&self) -> IgnoredView {
        IgnoredView { path: self.path@, status: self.status }
    }
}

/// [`WorktreeChanges`] as plain values.
pub ghost struct ChangesView {
    pub changes: Seq<ChangeView>,
    pub ignored_changes: Seq<IgnoredView>,
}

impl View for WorktreeChanges {
    type V = ChangesView;

    open spec fn view(&self) -> ChangesView {
        ChangesView {
            changes: Seq::new(self.changes@.len(), |k: int| self.changes@[k]@),
            ignored_changes: Seq::new(self.ignored_changes@.len(), |k: int| self.ignored_changes@[k]@),
        }
    }
}

/// The paths as ignored changes with the status `status`.
pub open spec fn ignored_as(paths: Seq<Seq<u8>>, status: IgnoredWorktreeTreeChangeStatus) -> Seq<IgnoredView> {
    Seq::new(paths.len(), |k: int| IgnoredView { path: paths[k], status })
}

/// The changes and the paths in conflict that the first `n` items give,
/// in the order of the items; the first error where an item fails.
pub open spec fn gathered(items: Seq<StatusItem>, n: int) -> Result<(Seq<Tagged>, Seq<Seq<u8>>), WorktreeError>
    decreases n,
{
    if n <= 0 {
        Ok((Seq::empty(), Seq::empty()))
    } else {
        match gathered(items, n - 1) {
            Err(e) => Err(e),
            Ok((changes, conflicts)) => match converted(items[n - 1]) {
                Err(e) => Err(e),
                Ok(Conversion::Change(x)) => Ok((changes.push(x), conflicts)),
                Ok(Conversion::Conflict(path)) => Ok((changes, conflicts.push(path))),
                Ok(Conversion::Skip) => Ok((changes, conflicts)),
            },
        }
    }
}

/// The changes of the worktree that the items of a status stand for.
///
/// The changes are sorted; each path keeps its first change, the others
/// are ignored in favour of it. The paths in conflict are ignored too, and
/// come first among the ignored.
pub open spec fn changes_of(items: Seq<StatusItem>) -> Result<ChangesView, WorktreeError> {
    match gathered(items, items.len() as int) {
        Err(e) => Err(e),
        Ok((changes, conflicts)) => {
            let s = sorted(changes);
            Ok(
                ChangesView {
                    changes: kept(s, s.len() as int),
                    ignored_changes: ignored_as(conflicts, IgnoredWorktreeTreeChangeStatus::Conflict)
                        + ignored_as(dropped(s, s.len() as int), IgnoredWorktreeTreeChangeStatus::TreeIndex),
                },
            )
        },
    }
}

/// How two paths compare.
#[derive(Debug, PartialEq, Eq, Clone, Copy, Structural)]
pub enum PathOrder {
    Before,
    Same,
    After,
}

/// Compares two paths byte by byte.
pub fn path_order(a: &Vec<u8>, b: &Vec<u8>) -> (r: PathOrder)
    ensures
        r == PathOrder::Before <==> lex_less(a@, b@),
        r == PathOrder::Same <==> a@ == b@,
        r == PathOrder::After <==> lex_less(b@, a@),
{
    let mut i: usize = 0;
    proof {
        assert(a@.skip(0) =~= a@);
        assert(b@.skip(0) =~= b@);
    }
    while i < a.len() && i < b.len()
        invariant
            i <= a.len(),
            i <= b.len(),
            a@.take(i as int) == b@.take(i as int),
            lex_less(a@, b@) == lex_less(a@.skip(i as int), b@.skip(i as int)),
            lex_less(b@, a@) == lex_less(b@.skip(i as int), a@.skip(i as int)),
        decreases a.len() - i,
    {
        let ghost ra = a@.skip(i as int);
        let ghost rb = b@.skip(i as int);
        assert(ra[0] == a@[i as int] && rb[0] == b@[i as int]);
        if a[i] != b[i] {
            return if a[i] < b[i] {
                PathOrder::Before
            } else {
                PathOrder::After
            };
        }
        proof {
            assert(ra.drop_first() =~= a@.skip(i + 1));
            assert(rb.drop_first() =~= b@.skip(i + 1));
            assert(a@.take(i + 1) =~= a@.take(i as int).push(a@[i as int]));
            assert(b@.take(i + 1) =~= b@.take(i as int).push(b@[i as int]));
        }
        i += 1;
    }
    proof {
        assert(a@.take(a@.len() as int) =~= a@);
        assert(b@.take(b@.len() as int) =~= b@);
        if i < a.len() {
            assert(a@.take(i as int).len() != a@.len());
        }
        if i < b.len() {
            assert(b@.take(i as int).len() != b@.len());
        }
    }
    if i < b.len() {
        PathOrder::Before
    } else if i < a.len() {
        PathOrder::After
    } else {
        PathOrder::Same
    }
}

/// The tagged changes of `v` as plain values.
pub open spec fn tagged_views(v: Seq<(Origin, TreeChange)>) -> Seq<Tagged> {
    Seq::new(v.len(), |k: int| Tagged { origin: v[k].0, change: v[k].1@ })
}

fn sorts_before(x: &(Origin, TreeChange), y: &(Origin, TreeChange)) -> (r: bool)
    ensures
        r == goes_before(
            Tagged { origin: x.0, change: x.1@ },
            Tagged { origin: y.0, change: y.1@ },
        ),
{
    match path_order(&x.1.path, &y.1.path) {
        PathOrder::Before => true,
        PathOrder::After => false,
        PathOrder::Same => match (x.0, y.0) {
            (Origin::IndexWorktree, Origin::TreeIndex) => true,
            _ => false,
        },
    }
}

fn insert_sorted(tmp: &mut Vec<(Origin, TreeChange)>, x: (Origin, TreeChange))
    ensures
        tagged_views(final(tmp)@) == inserted(
            tagged_views(old(tmp)@),
            Tagged { origin: x.0, change: x.1@ },
        ),
{
    let ghost s = tagged_views(tmp@);
    let ghost t = Tagged { origin: x.0, change: x.1@ };
    let mut p = tmp.len();
    proof {
        assert(s.take(p as int) =~= s);
        assert(s.skip(p as int) =~= Seq::<Tagged>::empty());
        assert(inserted(s, t) =~= inserted(s.take(p as int), t) + s.skip(p as int));
    }
    while p > 0 && sorts_before(&x, &tmp[p - 1])
        invariant
            p <= tmp.len(),
            s == tagged_views(tmp@),
            t == (Tagged { origin: x.0, change: x.1@ }),
            inserted(s, t) == inserted(s.take(p as int), t) + s.skip(p as int),
        decreases p,
    {
        proof {
            let front = s.take(p as int);
            assert(front.last() == s[p - 1]);
            assert(front.drop_last() =~= s.take(p - 1));
            assert(inserted(front, t) == inserted(s.take(p - 1), t).push(s[p - 1]));
            assert(inserted(s.take(p - 1), t).push(s[p - 1]) + s.skip(p as int) =~= inserted(s.take(p - 1), t)
                + s.skip(p - 1));
        }
        p -= 1;
    }
    proof {
        let front = s.take(p as int);
        if p > 0 {
            assert(front.last() == s[p - 1]);
        }
        assert(inserted(front, t) == front.push(t));
    }
    tmp.insert(p, x);
    assert(tagged_views(tmp@) =~= s.take(p as int).push(t) + s.skip(p as int));
}

/// The changes of `v` as plain values.
pub open spec fn change_views(v: Seq<TreeChange>) -> Seq<ChangeView> {
    Seq::new(v.len(), |k: int| v[k]@)
}

/// The ignored changes of `v` as plain values.
pub open spec fn ignored_views(v: Seq<IgnoredWorktreeChange>) -> Seq<IgnoredView> {
    Seq::new(v.len(), |k: int| v[k]@)
}

/// An item that fails makes the whole status fail, with the error of the
/// first such item.
pub proof fn lemma_gathered_error(items: Seq<StatusItem>, k: int, n: int)
    requires
        0 <= k <= n,
        gathered(items, k) is Err,
    ensures
        gathered(items, n) == gathered(items, k),
    decreases n - k,
{
    if k < n {
        lemma_gathered_error(items, k, n - 1);
    }
}

/// Lists what would have to be added to the tree of `HEAD` to get the
/// worktree, from the items of the status of the repository.
pub fn worktree_changes(items: Vec<StatusItem>) -> (r: Result<WorktreeChanges, WorktreeError>)
    ensures
        match changes_of(items@) {
            Ok(v) => r is Ok && r->Ok_0@ == v,
            Err(e) => r == Err::<WorktreeChanges, WorktreeError>(e),
        },
{
    let ghost all = items@;
    let mut tmp: Vec<(Origin, TreeChange)> = Vec::new();
    let mut ignored_changes: Vec<IgnoredWorktreeChange> = Vec::new();
    proof {
        assert(tagged_views(tmp@) =~= sorted(Seq::<Tagged>::empty()));
        assert(ignored_views(ignored_changes@) =~= ignored_as(
            Seq::<Seq<u8>>::empty(),
            IgnoredWorktreeTreeChangeStatus::Conflict,
        ));
    }
    for item in it: items
        invariant
            it.seq() == all,
            gathered(all, it.index() as int) is Ok,
            tagged_views(tmp@) == sorted(gathered(all, it.index() as int)->Ok_0.0),
            ignored_views(ignored_changes@) == ignored_as(
                gathered(all, it.index() as int)->Ok_0.1,
                IgnoredWorktreeTreeChangeStatus::Conflict,
            ),
    {
        let ghost n = it.index() as int;
        let ghost before = gathered(all, n)->Ok_0;
        assert(all[n] == item);
        match convert(item) {
            Err(e) => {
                proof {
                    assert(gathered(all, n + 1) == Err::<(Seq<Tagged>, Seq<Seq<u8>>), WorktreeError>(e));
                    lemma_gathered_error(all, n + 1, all.len() as int);
                }
                return Err(e);
            },
            Ok(Converted::Change(origin, change)) => {
                let ghost x = Tagged { origin, change: change@ };
                insert_sorted(&mut tmp, (origin, change));
                proof {
                    assert(before.0.push(x).drop_last() =~= before.0);
                }
            },
            Ok(Converted::Conflict(path)) => {
                let ghost seen = ignored_views(ignored_changes@);
                ignored_changes.push(
                    IgnoredWorktreeChange { path, status: IgnoredWorktreeTreeChangeStatus::Conflict },
                );
                proof {
                    let target = ignored_as(before.1.push(path@), IgnoredWorktreeTreeChangeStatus::Conflict);
                    let now = ignored_views(ignored_changes@);
                    assert(seen == ignored_as(before.1, IgnoredWorktreeTreeChangeStatus::Conflict));
                    assert(seen.len() == before.1.len());
                    assert forall|k: int| 0 <= k < now.len() implies now[k] == target[k] by {
                        if k < seen.len() {
                            assert(now[k] == seen[k]);
                        }
                    }
                    assert(now =~= target);
                }
            },
            Ok(Converted::Skip) => {},
        }
    }
    let ghost s = tagged_views(tmp@);
    let ghost conflicts = ignored_views(ignored_changes@);
    let ghost sorted_changes = tmp@;
    let mut changes: Vec<TreeChange> = Vec::new();
    proof {
        assert(change_views(changes@) =~= kept(s, 0));
        assert(ignored_views(ignored_changes@) =~= conflicts + ignored_as(
            dropped(s, 0),
            IgnoredWorktreeTreeChangeStatus::TreeIndex,
        ));
    }
    for tagged in it: tmp
        invariant
            it.seq() == sorted_changes,
            s == tagged_views(sorted_changes),
            change_views(changes@) == kept(s, it.index() as int),
            ignored_views(ignored_changes@) == conflicts + ignored_as(
                dropped(s, it.index() as int),
                IgnoredWorktreeTreeChangeStatus::TreeIndex,
            ),
            it.index() > 0 ==> changes.len() > 0 && changes[changes.len() - 1].path@ == s[it.index() - 1].change.path,
    {
        let ghost n = it.index() as int;
        let (_origin, change) = tagged;
        assert(s[n].change == change@);
        let repeats = changes.len() > 0 && match path_order(&changes[changes.len() - 1].path, &change.path) {
            PathOrder::Same => true,
            _ => false,
        };
        if repeats {
            let ghost seen = ignored_views(ignored_changes@);
            ignored_changes.push(
                IgnoredWorktreeChange { path: change.path, status: IgnoredWorktreeTreeChangeStatus::TreeIndex },
            );
            proof {
                assert(n >= 1);
                let before = ignored_as(dropped(s, n), IgnoredWorktreeTreeChangeStatus::TreeIndex);
                let after = ignored_as(dropped(s, n + 1), IgnoredWorktreeTreeChangeStatus::TreeIndex);
                let now = ignored_views(ignored_changes@);
                assert(dropped(s, n + 1) == dropped(s, n).push(s[n].change.path));
                assert(seen == conflicts + before);
                assert(seen.len() == conflicts.len() + before.len());
                assert forall|k: int| 0 <= k < now.len() implies now[k] == (conflicts + after)[k] by {
                    if k < seen.len() {
                        assert(now[k] == seen[k]);
                        if k >= conflicts.len() {
                            assert(before[k - conflicts.len()] == after[k - conflicts.len()]);
                        }
                    }
                }
                assert(now =~= conflicts + after);
            }
        } else {
            let ghost seen = change_views(changes@);
            changes.push(change);
            proof {
                assert(change_views(changes@) =~= seen.push(s[n].change));
            }
        }
    }
    let result = WorktreeChanges { changes, ignored_changes };
    proof {
        assert(s.len() == sorted_changes.len());
        assert(result@.changes =~= change_views(result.changes@));
        assert(result@.ignored_changes =~= ignored_views(result.ignored_changes@));
    }
    Ok(result)
}

// ---------------------------------------------------------------------------
// Each path once
// ---------------------------------------------------------------------------
/// The order of paths: no path comes before itself, of two paths one comes
/// first, and what comes before a path comes before all that follow it.
pub proof fn lemma_lex_order(a: Seq<u8>, b: Seq<u8>, c: Seq<u8>)
    ensures
        !lex_less(a, a),
        a != b ==> lex_less(a, b) || lex_less(b, a),
        !(lex_less(a, b) && lex_less(b, a)),
        lex_less(a, b) && lex_less(b, c) ==> lex_less(a, c),
    decreases a.len(),
{
    if a.len() > 0 {
        lemma_lex_order(a.drop_first(), a.drop_first(), a.drop_first());
        if b.len() > 0 {
            if a[0] == b[0] {
                if c.len() > 0 && b[0] == c[0] {
                    lemma_lex_order(a.drop_first(), b.drop_first(), c.drop_first());
                } else {
                    lemma_lex_order(a.drop_first(), b.drop_first(), b.drop_first());
                }
                if a != b {
                    assert(a.drop_first() != b.drop_first()) by {
                        if a.drop_first() == b.drop_first() {
                            assert(a =~= seq![a[0]] + a.drop_first());
                            assert(b =~= seq![b[0]] + b.drop_first());
                        }
                    }
                }
            }
        }
    } else {
        if a != b {
            assert(b.len() > 0) by {
                if b.len() == 0 {
                    assert(a =~= b);
                }
            }
        }
    }
}

/// Whether nothing in `s` is sorted before what stands ahead of it.
pub open spec fn is_sorted(s: Seq<Tagged>) -> bool {
    forall|i: int, j: int| 0 <= i < j < s.len() ==> !goes_before(#[trigger] s[j], #[trigger] s[i])
}

proof fn lemma_rank_order(x: Tagged, y: Tagged, z: Tagged)
    ensures
        !goes_before(x, x),
        !goes_before(y, x) && !goes_before(z, y) ==> !goes_before(z, x),
        goes_before(x, y) ==> !goes_before(y, x),
{
    lemma_lex_order(x.change.path, y.change.path, z.change.path);
    lemma_lex_order(y.change.path, z.change.path, x.change.path);
    lemma_lex_order(z.change.path, x.change.path, y.change.path);
    lemma_lex_order(z.change.path, y.change.path, x.change.path);
    lemma_lex_order(y.change.path, x.change.path, z.change.path);
    lemma_lex_order(x.change.path, z.change.path, y.change.path);
}

proof fn lemma_inserted(s: Seq<Tagged>, x: Tagged)
    requires
        is_sorted(s),
    ensures
        is_sorted(inserted(s, x)),
        inserted(s, x).len() == s.len() + 1,
        forall|y: Tagged| #[trigger] inserted(s, x).contains(y) <==> s.contains(y) || y == x,
    decreases s.len(),
{
    let r = inserted(s, x);
    if s.len() > 0 && goes_before(x, s.last()) {
        let front = s.drop_last();
        let last = s.last();
        assert forall|i: int, j: int| 0 <= i < j < front.len() implies !goes_before(
            #[trigger] front[j],
            #[trigger] front[i],
        ) by {
            assert(front[i] == s[i] && front[j] == s[j]);
        }
        lemma_inserted(front, x);
        let inner = inserted(front, x);
        assert(r == inner.push(last));
        assert forall|i: int, j: int| 0 <= i < j < r.len() implies !goes_before(
            #[trigger] r[j],
            #[trigger] r[i],
        ) by {
            if j < inner.len() {
                assert(r[i] == inner[i] && r[j] == inner[j]);
            } else {
                assert(r[j] == last);
                assert(r[i] == inner[i]);
                assert(inner.contains(inner[i]));
                assert(inserted(front, x).contains(inner[i]) <==> front.contains(inner[i]) || inner[i] == x);
                if inner[i] == x {
                    lemma_rank_order(x, last, last);
                } else {
                    assert(front.contains(inner[i]));
                    let k = choose|k: int| 0 <= k < front.len() && front[k] == inner[i];
                    assert(s[k] == front[k]);
                    assert(!goes_before(s[s.len() - 1], s[k]));
                }
            }
        }
        assert forall|y: Tagged| #[trigger] r.contains(y) <==> s.contains(y) || y == x by {
            assert(inserted(front, x).contains(y) <==> front.contains(y) || y == x);
            if r.contains(y) {
                let k = choose|k: int| 0 <= k < r.len() && r[k] == y;
                if k < inner.len() {
                    assert(inner[k] == y);
                    assert(inner.contains(y));
                    if y != x {
                        let m = choose|m: int| 0 <= m < front.len() && front[m] == y;
                        assert(s[m] == y);
                    }
                } else {
                    assert(s[s.len() - 1] == y);
                }
            }
            if s.contains(y) {
                let k = choose|k: int| 0 <= k < s.len() && s[k] == y;
                if k < front.len() {
                    assert(front[k] == y);
                    assert(front.contains(y));
                    assert(inner.contains(y));
                    let m = choose|m: int| 0 <= m < inner.len() && inner[m] == y;
                    assert(r[m] == y);
                } else {
                    assert(r[r.len() - 1] == y);
                }
            }
            if y == x {
                assert(inner.contains(x));
                let m = choose|m: int| 0 <= m < inner.len() && inner[m] == x;
                assert(r[m] == x);
            }
        }
    } else {
        assert(r == s.push(x));
        assert forall|i: int, j: int| 0 <= i < j < r.len() implies !goes_before(
            #[trigger] r[j],
            #[trigger] r[i],
        ) by {
            if j < s.len() {
                assert(r[i] == s[i] && r[j] == s[j]);
            } else {
                assert(r[j] == x && r[i] == s[i]);
                if i < s.len() - 1 {
                    assert(!goes_before(s[s.len() - 1], s[i]));
                }
                lemma_rank_order(s[i], s.last(), x);
            }
        }
        assert forall|y: Tagged| #[trigger] r.contains(y) <==> s.contains(y) || y == x by {
            if r.contains(y) {
                let k = choose|k: int| 0 <= k < r.len() && r[k] == y;
                if k < s.len() {
                    assert(s[k] == y);
                }
            }
            if s.contains(y) {
                let k = choose|k: int| 0 <= k < s.len() && s[k] == y;
                assert(r[k] == y);
            }
            if y == x {
                assert(r[s.len() as int] == x);
            }
        }
    }
}

/// Sorting keeps every change, adds none, and puts them in order.
pub proof fn lemma_sorted(t: Seq<Tagged>)
    ensures
        is_sorted(sorted(t)),
        sorted(t).len() == t.len(),
        forall|y: Tagged| #[trigger] sorted(t).contains(y) <==> t.contains(y),
    decreases t.len(),
{
    if t.len() > 0 {
        let front = t.drop_last();
        lemma_sorted(front);
        lemma_inserted(sorted(front), t.last());
        assert forall|y: Tagged| #[trigger] sorted(t).contains(y) <==> t.contains(y) by {
            assert(inserted(sorted(front), t.last()).contains(y) <==> sorted(front).contains(y) || y == t.last());
            assert(sorted(front).contains(y) <==> front.contains(y));
            if t.contains(y) {
                let k = choose|k: int| 0 <= k < t.len() && t[k] == y;
                if k < front.len() {
                    assert(front[k] == y);
                    assert(front.contains(y));
                }
            }
            if front.contains(y) {
                let k = choose|k: int| 0 <= k < front.len() && front[k] == y;
                assert(t[k] == y);
            }
            if y == t.last() {
                assert(t[t.len() - 1] == y);
            }
        }
    }
}

proof fn lemma_kept(s: Seq<Tagged>, n: int)
    requires
        is_sorted(s),
        0 <= n <= s.len(),
    ensures
        kept(s, n).len() + dropped(s, n).len() == n,
        n > 0 ==> kept(s, n).len() > 0 && kept(s, n).last().path == s[n - 1].change.path,
        forall|a: int, b: int|
            0 <= a < b < kept(s, n).len() ==> lex_less(
                (#[trigger] kept(s, n)[a]).path,
                (#[trigger] kept(s, n)[b]).path,
            ),
        forall|i: int|
            0 <= i < n ==> exists|j: int|
                0 <= j < kept(s, n).len() && (#[trigger] kept(s, n)[j]).path == (#[trigger] s[i]).change.path,
        forall|m: int|
            0 <= m < dropped(s, n).len() ==> exists|j: int|
                0 <= j < kept(s, n).len() && (#[trigger] kept(s, n)[j]).path == #[trigger] dropped(s, n)[m],
    decreases n,
{
    if n > 0 {
        lemma_kept(s, n - 1);
        let before = kept(s, n - 1);
        let now = kept(s, n);
        let gone = dropped(s, n);
        let path = s[n - 1].change.path;
        if n >= 2 && s[n - 2].change.path == path {
            assert(now == before);
            assert forall|i: int| 0 <= i < n implies exists|j: int|
                0 <= j < now.len() && (#[trigger] now[j]).path == (#[trigger] s[i]).change.path by {
                if i == n - 1 {
                    assert(now[now.len() - 1].path == s[i].change.path);
                }
            }
            assert forall|m: int| 0 <= m < gone.len() implies exists|j: int|
                0 <= j < now.len() && (#[trigger] now[j]).path == #[trigger] gone[m] by {
                if m == gone.len() - 1 {
                    assert(now[now.len() - 1].path == gone[m]);
                } else {
                    assert(gone[m] == dropped(s, n - 1)[m]);
                }
            }
        } else {
            assert(now == before.push(s[n - 1].change));
            assert forall|a: int, b: int| 0 <= a < b < now.len() implies lex_less(
                (#[trigger] now[a]).path,
                (#[trigger] now[b]).path,
            ) by {
                if b < before.len() {
                    assert(now[a] == before[a] && now[b] == before[b]);
                } else {
                    assert(n >= 2);
                    let prev = s[n - 2].change.path;
                    assert(!goes_before(s[n - 1], s[n - 2]));
                    lemma_lex_order(prev, path, path);
                    assert(lex_less(prev, path));
                    assert(before.last().path == prev);
                    assert(now[a] == before[a]);
                    if a < before.len() - 1 {
                        assert(lex_less(before[a].path, before[before.len() - 1].path));
                        lemma_lex_order(before[a].path, prev, path);
                    }
                }
            }
            assert forall|i: int| 0 <= i < n implies exists|j: int|
                0 <= j < now.len() && (#[trigger] now[j]).path == (#[trigger] s[i]).change.path by {
                if i == n - 1 {
                    assert(now[now.len() - 1].path == s[i].change.path);
                } else {
                    let j = choose|j: int|
                        0 <= j < before.len() && (#[trigger] before[j]).path == s[i].change.path;
                    assert(now[j] == before[j]);
                }
            }
            assert forall|m: int| 0 <= m < gone.len() implies exists|j: int|
                0 <= j < now.len() && (#[trigger] now[j]).path == #[trigger] gone[m] by {
                let j = choose|j: int| 0 <= j < before.len() && (#[trigger] before[j]).path == gone[m];
                assert(now[j] == before[j]);
            }
        }
    }
}

/// The changes that are kept come by ascending path, so each path occurs
/// once among them; every path of a change occurs, and every change that
/// is not kept is listed as dropped, with the path of a change that is
/// kept.
pub proof fn lemma_each_path_once(t: Seq<Tagged>)
    ensures
        ({
            let s = sorted(t);
            let changes = kept(s, s.len() as int);
            let ignored = dropped(s, s.len() as int);
            &&& changes.len() + ignored.len() == t.len()
            &&& forall|a: int, b: int|
                0 <= a < b < changes.len() ==> lex_less((#[trigger] changes[a]).path, (#[trigger] changes[b]).path)
            &&& forall|a: int, b: int|
                0 <= a < b < changes.len() ==> (#[trigger] changes[a]).path != (#[trigger] changes[b]).path
            &&& forall|i: int|
                0 <= i < t.len() ==> exists|j: int|
                    0 <= j < changes.len() && (#[trigger] changes[j]).path == (#[trigger] t[i]).change.path
            &&& forall|m: int|
                0 <= m < ignored.len() ==> exists|j: int|
                    0 <= j < changes.len() && (#[trigger] changes[j]).path == #[trigger] ignored[m]
        }),
{
    let s = sorted(t);
    let changes = kept(s, s.len() as int);
    lemma_sorted(t);
    lemma_kept(s, s.len() as int);
    assert forall|a: int, b: int| 0 <= a < b < changes.len() implies (#[trigger] changes[a]).path
        != (#[trigger] changes[b]).path by {
        lemma_lex_order(changes[a].path, changes[b].path, changes[b].path);
    }
    assert forall|i: int| 0 <= i < t.len() implies exists|j: int|
        0 <= j < changes.len() && (#[trigger] changes[j]).path == (#[trigger] t[i]).change.path by {
        assert(t.contains(t[i]));
        assert(sorted(t).contains(t[i]) <==> t.contains(t[i]));
        assert(s.contains(t[i]));
        let k = choose|k: int| 0 <= k < s.len() && s[k] == t[i];
        assert(s[k].change.path == t[i].change.path);
    }
}

/// How many of `paths` are the path `p`.
pub open spec fn times(paths: Seq<Seq<u8>>, p: Seq<u8>) -> nat
    decreases paths.len(),
{
    if paths.len() == 0 {
        0
    } else {
        times(paths.drop_last(), p) + if paths.last() == p {
            1nat
        } else {
            0nat
        }
    }
}

/// The paths of the changes, in their order.
pub open spec fn paths_of(s: Seq<Tagged>) -> Seq<Seq<u8>> {
    Seq::new(s.len(), |i: int| s[i].change.path)
}

/// The paths of the changes, in their order.
pub open spec fn change_paths(s: Seq<ChangeView>) -> Seq<Seq<u8>> {
    Seq::new(s.len(), |i: int| s[i].path)
}

proof fn lemma_times_push(paths: Seq<Seq<u8>>, x: Seq<u8>, p: Seq<u8>)
    ensures
        times(paths.push(x), p) == times(paths, p) + if x == p {
            1nat
        } else {
            0nat
        },
{
    assert(paths.push(x).drop_last() =~= paths);
}

proof fn lemma_times_found(paths: Seq<Seq<u8>>, p: Seq<u8>)
    ensures
        times(paths, p) > 0 <==> exists|k: int| 0 <= k < paths.len() && #[trigger] paths[k] == p,
        (forall|a: int, b: int| 0 <= a < b < paths.len() ==> #[trigger] paths[a] != #[trigger] paths[b]) ==> times(
            paths,
            p,
        ) <= 1,
    decreases paths.len(),
{
    if paths.len() > 0 {
        let front = paths.drop_last();
        lemma_times_found(front, p);
        assert forall|k: int| 0 <= k < front.len() implies front[k] == paths[k] by {}
        if exists|k: int| 0 <= k < paths.len() && #[trigger] paths[k] == p {
            let k = choose|k: int| 0 <= k < paths.len() && #[trigger] paths[k] == p;
            if k < front.len() {
                assert(front[k] == p);
            }
        }
        if times(front, p) > 0 {
            let k = choose|k: int| 0 <= k < front.len() && #[trigger] front[k] == p;
            assert(paths[k] == p);
        }
        if forall|a: int, b: int| 0 <= a < b < paths.len() ==> #[trigger] paths[a] != #[trigger] paths[b] {
            assert forall|a: int, b: int| 0 <= a < b < front.len() implies #[trigger] front[a] != #[trigger] front[b] by {
                assert(paths[a] != paths[b]);
            }
            if paths.last() == p && times(front, p) > 0 {
                let k = choose|k: int| 0 <= k < front.len() && #[trigger] front[k] == p;
                assert(paths[k] != paths[paths.len() - 1]);
            }
        }
    }
}

proof fn lemma_inserted_times(s: Seq<Tagged>, x: Tagged, p: Seq<u8>)
    ensures
        times(paths_of(inserted(s, x)), p) == times(paths_of(s), p) + if x.change.path == p {
            1nat
        } else {
            0nat
        },
    decreases s.len(),
{
    if s.len() > 0 && goes_before(x, s.last()) {
        let front = s.drop_last();
        lemma_inserted_times(front, x, p);
        assert(paths_of(inserted(s, x)) =~= paths_of(inserted(front, x)).push(s.last().change.path));
        lemma_times_push(paths_of(inserted(front, x)), s.last().change.path, p);
        assert(paths_of(s) =~= paths_of(front).push(s.last().change.path));
        lemma_times_push(paths_of(front), s.last().change.path, p);
    } else {
        assert(paths_of(inserted(s, x)) =~= paths_of(s).push(x.change.path));
        lemma_times_push(paths_of(s), x.change.path, p);
    }
}

proof fn lemma_sorted_times(t: Seq<Tagged>, p: Seq<u8>)
    ensures
        times(paths_of(sorted(t)), p) == times(paths_of(t), p),
    decreases t.len(),
{
    if t.len() > 0 {
        lemma_sorted_times(t.drop_last(), p);
        lemma_inserted_times(sorted(t.drop_last()), t.last(), p);
        assert(paths_of(t) =~= paths_of(t.drop_last()).push(t.last().change.path));
        lemma_times_push(paths_of(t.drop_last()), t.last().change.path, p);
    } else {
        assert(paths_of(sorted(t)) =~= paths_of(t));
    }
}

proof fn lemma_kept_times(s: Seq<Tagged>, n: int, p: Seq<u8>)
    requires
        0 <= n <= s.len(),
    ensures
        times(change_paths(kept(s, n)), p) + times(dropped(s, n), p) == times(paths_of(s.take(n)), p),
    decreases n,
{
    if n > 0 {
        lemma_kept_times(s, n - 1, p);
        let x = s[n - 1].change.path;
        assert(paths_of(s.take(n)) =~= paths_of(s.take(n - 1)).push(x));
        lemma_times_push(paths_of(s.take(n - 1)), x, p);
        if n >= 2 && s[n - 2].change.path == s[n - 1].change.path {
            lemma_times_push(dropped(s, n - 1), x, p);
        } else {
            assert(change_paths(kept(s, n)) =~= change_paths(kept(s, n - 1)).push(x));
            lemma_times_push(change_paths(kept(s, n - 1)), x, p);
        }
    } else {
        assert(paths_of(s.take(0)) =~= Seq::<Seq<u8>>::empty());
        assert(change_paths(kept(s, 0)) =~= Seq::<Seq<u8>>::empty());
    }
}

/// Of the changes to a path one is kept and all the others are listed as
/// dropped: where `k` of the changes are changes to the path `p`, the
/// path occurs once among the changes that are kept and `k - 1` times
/// among those that are dropped, and not at all where `k` is none.
pub proof fn lemma_each_path_counted(t: Seq<Tagged>, p: Seq<u8>)
    ensures
        ({
            let s = sorted(t);
            let k = times(paths_of(t), p);
            &&& times(change_paths(kept(s, s.len() as int)), p) == if k > 0 {
                1nat
            } else {
                0nat
            }
            &&& times(dropped(s, s.len() as int), p) == if k > 0 {
                (k - 1) as nat
            } else {
                0nat
            }
        }),
{
    let s = sorted(t);
    let changes = kept(s, s.len() as int);
    let paths = change_paths(changes);
    lemma_each_path_once(t);
    lemma_sorted(t);
    lemma_sorted_times(t, p);
    lemma_kept_times(s, s.len() as int, p);
    assert(s.take(s.len() as int) =~= s);
    lemma_times_found(paths, p);
    lemma_times_found(paths_of(t), p);
    assert forall|a: int, b: int| 0 <= a < b < paths.len() implies #[trigger] paths[a] != #[trigger] paths[b] by {
        assert(changes[a].path != changes[b].path);
    }
    if times(paths_of(t), p) > 0 {
        let i = choose|i: int| 0 <= i < paths_of(t).len() && #[trigger] paths_of(t)[i] == p;
        assert(t[i].change.path == p);
        let j = choose|j: int| 0 <= j < changes.len() && (#[trigger] changes[j]).path == t[i].change.path;
        assert(paths[j] == p);
    }
}

// ---------------------------------------------------------------------------
// What to compare for the diff of a change
// ---------------------------------------------------------------------------
/// The two sides of a change: the path and the state it comes from, and
/// the state it leads to; a side is missing where the path was added or
/// deleted.
#[derive(Debug, PartialEq, Eq, Clone, Copy)]
pub struct DiffSides<'a> {
    pub previous_path: Option<&'a Vec<u8>>,
    pub current: Option<ChangeState>,
    pub previous: Option<ChangeState>,
}

impl TreeChange {
    /// The two sides to compare for the unified diff of the change.
    pub fn diff_sides(&self) -> (r: DiffSides<'_>)
        ensures
            match self.status {
                TreeStatus::Deletion { previous_state } => r.previous_path is None && r.current is None && r.previous
                    == Some(previous_state),
                TreeStatus::Addition { state, .. } => r.previous_path is None && r.current == Some(state)
                    && r.previous is None,
                TreeStatus::Modification { previous_state, state, .. } => r.previous_path is None && r.current == Some(
                    state,
                ) && r.previous == Some(previous_state),
                TreeStatus::Rename { previous_path, previous_state, state, .. } => r.previous_path is Some
                    && *r.previous_path->0 == previous_path && r.current == Some(state) && r.previous == Some(
                    previous_state,
                ),
            },
    {
        match &self.status {
            TreeStatus::Deletion { previous_state } => DiffSides {
                previous_path: None,
                current: None,
                previous: Some(*previous_state),
            },
            TreeStatus::Addition { state, .. } => DiffSides { previous_path: None, current: Some(*state), previous: None },
            TreeStatus::Modification { previous_state, state, .. } => DiffSides {
                previous_path: None,
                current: Some(*state),
                previous: Some(*previous_state),
            },
            TreeStatus::Rename { previous_path, previous_state, state, .. } => DiffSides {
                previous_path: Some(previous_path),
                current: Some(*state),
                previous: Some(*previous_state),
            },
        }
    }
}

} // verus!
