use stack_engine::object_id::ObjectId;
use stack_engine::wd_tree::{within_limit, TreeEdit, WdTreeBuilder};
use stack_engine::worktree::{
    DirEntry, DirStatus, DiskKind, EntryChange, EntryKind, IndexChange, RewriteSource, StatusItem, TreeChange,
    TreeStatus, ChangeState, WorktreeError, WorktreeItem,
};

fn id(digit: char) -> ObjectId {
    let hex: String = std::iter::repeat(digit).take(40).collect();
    ObjectId::from_hex(&hex).unwrap()
}

fn in_worktree(path: &str, status: EntryChange) -> StatusItem {
    StatusItem::IndexWorktree(WorktreeItem::Modification {
        rela_path: path.as_bytes().to_vec(),
        entry_mode: 0o100644,
        entry_id: id('1'),
        status,
    })
}

fn added_to_index(path: &str, mode: u32) -> StatusItem {
    StatusItem::TreeIndex(IndexChange::Addition { location: path.as_bytes().to_vec(), entry_mode: mode, id: id('2') })
}

fn walked(path: &str, status: DirStatus) -> DirEntry {
    DirEntry {
        rela_path: path.as_bytes().to_vec(),
        disk_kind: Some(DiskKind::File),
        index_kind: None,
        status,
        executable: Some(false),
    }
}

#[test]
fn the_worktree_goes_before_the_index() {
    let mut builder = WdTreeBuilder::new();
    assert_eq!(
        builder.step(added_to_index("a", 0o100755)),
        Ok(TreeEdit::Upsert { path: b"a".to_vec(), kind: EntryKind::BlobExecutable, id: id('2') })
    );
    assert_eq!(builder.step(added_to_index("odd", 1)), Ok(TreeEdit::Nothing));
    assert_eq!(builder.step(in_worktree("a", EntryChange::Removed)), Ok(TreeEdit::Remove(b"a".to_vec())));
    assert_eq!(builder.step(added_to_index("a", 0o100644)), Ok(TreeEdit::Nothing));
    let deleted = StatusItem::TreeIndex(IndexChange::Deletion { location: b"a".to_vec(), entry_mode: 0o100644, id: id('1') });
    assert_eq!(builder.step(deleted), Ok(TreeEdit::Nothing));
    let deleted = StatusItem::TreeIndex(IndexChange::Deletion { location: b"b".to_vec(), entry_mode: 0o100644, id: id('1') });
    assert_eq!(builder.step(deleted), Ok(TreeEdit::Remove(b"b".to_vec())));
    assert_eq!(builder.changed, vec![b"a".to_vec()]);
}

#[test]
fn files_of_the_worktree_count_once_they_are_added() {
    let mut builder = WdTreeBuilder::new();
    for status in [
        EntryChange::Modification { executable_bit_changed: false },
        EntryChange::Type { worktree_mode: 0o120000 },
        EntryChange::Conflict,
        EntryChange::IntentToAdd,
    ] {
        assert_eq!(builder.step(in_worktree("f", status)), Ok(TreeEdit::AddWorktreeFile(b"f".to_vec())));
    }
    assert!(builder.changed.is_empty());
    builder.file_added(b"big".to_vec(), false);
    assert!(builder.changed.is_empty());
    builder.file_added(b"f".to_vec(), true);
    assert_eq!(builder.step(added_to_index("f", 0o100644)), Ok(TreeEdit::Nothing));
    assert_eq!(builder.step(in_worktree("f", EntryChange::NeedsUpdate)), Ok(TreeEdit::Nothing));
}

#[test]
fn untracked_files_are_put_aside_and_submodules_are_taken_at_their_head() {
    let mut builder = WdTreeBuilder::new();
    let untracked = StatusItem::IndexWorktree(WorktreeItem::DirectoryContents { entry: walked("new", DirStatus::Untracked) });
    let ignored = StatusItem::IndexWorktree(WorktreeItem::DirectoryContents { entry: walked("target", DirStatus::Ignored) });
    assert_eq!(builder.step(untracked), Ok(TreeEdit::Nothing));
    assert_eq!(builder.step(ignored), Ok(TreeEdit::Nothing));
    assert_eq!(
        builder.step(in_worktree("sub", EntryChange::SubmoduleModification { checked_out_head_id: Some(id('5')) })),
        Ok(TreeEdit::Upsert { path: b"sub".to_vec(), kind: EntryKind::Commit, id: id('5') })
    );
    assert_eq!(
        builder.step(in_worktree("other", EntryChange::SubmoduleModification { checked_out_head_id: None })),
        Ok(TreeEdit::Nothing)
    );
    assert_eq!(builder.changed, vec![b"sub".to_vec()]);
    let rename = StatusItem::IndexWorktree(WorktreeItem::Rewrite {
        source: RewriteSource::RewriteFromIndex { source_rela_path: b"a".to_vec(), source_entry_mode: 0o100644, source_id: id('1') },
        dirwalk_entry: walked("b", DirStatus::Untracked),
        dirwalk_entry_id: id('2'),
    });
    let before = builder.clone();
    assert_eq!(builder.step(rename), Err(WorktreeError::UnexpectedItem));
    assert_eq!(builder, before);
    assert_eq!(builder.finish(), vec![b"new".to_vec()]);
}

#[test]
fn size_limit_of_zero_is_no_limit() {
    assert!(within_limit(5_000_000_000, 0));
    assert!(within_limit(10, 10));
    assert!(!within_limit(11, 10));
}

#[test]
fn sides_of_a_diff_follow_the_status() {
    let old = ChangeState { id: id('1'), kind: EntryKind::Blob };
    let new = ChangeState { id: id('2'), kind: EntryKind::Blob };
    let change = |status| TreeChange { path: b"p".to_vec(), status };
    let deleted = change(TreeStatus::Deletion { previous_state: old });
    let sides = deleted.diff_sides();
    assert_eq!((sides.previous_path, sides.current, sides.previous), (None, None, Some(old)));
    let added = change(TreeStatus::Addition { state: new, is_untracked: true });
    let sides = added.diff_sides();
    assert_eq!((sides.previous_path, sides.current, sides.previous), (None, Some(new), None));
    let modified = change(TreeStatus::Modification { previous_state: old, state: new, flags: None });
    let sides = modified.diff_sides();
    assert_eq!((sides.previous_path, sides.current, sides.previous), (None, Some(new), Some(old)));
    let renamed = change(TreeStatus::Rename { previous_path: b"q".to_vec(), previous_state: old, state: new, flags: None });
    let sides = renamed.diff_sides();
    assert_eq!((sides.previous_path, sides.current, sides.previous), (Some(&b"q".to_vec()), Some(new), Some(old)));
}
