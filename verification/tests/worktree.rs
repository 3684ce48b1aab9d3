use stack_engine::object_id::ObjectId;
use stack_engine::worktree::{
    convert, disk_kind_to_entry_kind, into_tree_entry_kind, path_order, worktree_changes, ChangeState, Converted,
    DirEntry, DirStatus, DiskKind, EntryChange, EntryKind, IgnoredWorktreeChange, IgnoredWorktreeTreeChangeStatus,
    IndexChange, ModeFlags, Origin, PathOrder, RewriteSource, StatusItem, TreeChange, TreeStatus, WorktreeError,
    WorktreeItem,
};

const FILE: u32 = 0o100644;
const EXECUTABLE: u32 = 0o100755;

fn id(digit: char) -> ObjectId {
    let hex: String = std::iter::repeat(digit).take(40).collect();
    ObjectId::from_hex(&hex).unwrap()
}

fn state(digit: char, kind: EntryKind) -> ChangeState {
    ChangeState { id: id(digit), kind }
}

fn unhashed(kind: EntryKind) -> ChangeState {
    ChangeState { id: ObjectId::null(), kind }
}

fn modified_in_worktree(path: &str, before: char) -> StatusItem {
    StatusItem::IndexWorktree(WorktreeItem::Modification {
        rela_path: path.as_bytes().to_vec(),
        entry_mode: FILE,
        entry_id: id(before),
        status: EntryChange::Modification { executable_bit_changed: false },
    })
}

fn added_to_index(path: &str, content: char) -> StatusItem {
    StatusItem::TreeIndex(IndexChange::Addition { location: path.as_bytes().to_vec(), entry_mode: FILE, id: id(content) })
}

fn untracked(path: &str, kind: DiskKind, executable: Option<bool>) -> StatusItem {
    StatusItem::IndexWorktree(WorktreeItem::DirectoryContents {
        entry: DirEntry {
            rela_path: path.as_bytes().to_vec(),
            disk_kind: Some(kind),
            index_kind: None,
            status: DirStatus::Untracked,
            executable,
        },
    })
}

#[test]
fn entry_modes_are_told_apart() {
    assert_eq!(into_tree_entry_kind(0o100644), Ok(EntryKind::Blob));
    assert_eq!(into_tree_entry_kind(0o100755), Ok(EntryKind::BlobExecutable));
    assert_eq!(into_tree_entry_kind(0o100000), Ok(EntryKind::Blob));
    assert_eq!(into_tree_entry_kind(0o120000), Ok(EntryKind::Link));
    assert_eq!(into_tree_entry_kind(0o160000), Ok(EntryKind::Commit));
    assert_eq!(into_tree_entry_kind(0o040000), Ok(EntryKind::Tree));
    assert_eq!(into_tree_entry_kind(0o140000), Ok(EntryKind::Tree));
    assert_eq!(into_tree_entry_kind(0), Err(WorktreeError::InvalidEntryMode(0)));
    assert_eq!(into_tree_entry_kind(0o000644), Err(WorktreeError::InvalidEntryMode(0o000644)));
    assert_eq!(into_tree_entry_kind(0o060000), Err(WorktreeError::InvalidEntryMode(0o060000)));
}

#[test]
fn mode_flags_follow_from_the_two_kinds() {
    let flags = |old, new| ModeFlags::calculate(&unhashed(old), &unhashed(new));
    assert_eq!(flags(EntryKind::Blob, EntryKind::BlobExecutable), Some(ModeFlags::ExecutableBitAdded));
    assert_eq!(flags(EntryKind::BlobExecutable, EntryKind::Blob), Some(ModeFlags::ExecutableBitRemoved));
    assert_eq!(flags(EntryKind::Blob, EntryKind::Link), Some(ModeFlags::TypeChange));
    assert_eq!(flags(EntryKind::Commit, EntryKind::BlobExecutable), Some(ModeFlags::TypeChange));
    assert_eq!(flags(EntryKind::Blob, EntryKind::Blob), None);
    assert_eq!(flags(EntryKind::Link, EntryKind::Link), None);
}

#[test]
fn disk_kinds_become_entry_kinds() {
    assert_eq!(disk_kind_to_entry_kind(Some(DiskKind::Repository), None, None), Ok(Some(EntryKind::Commit)));
    assert_eq!(disk_kind_to_entry_kind(Some(DiskKind::Symlink), None, None), Ok(Some(EntryKind::Link)));
    assert_eq!(disk_kind_to_entry_kind(Some(DiskKind::Untrackable), Some(DiskKind::File), Some(true)), Ok(None));
    assert_eq!(disk_kind_to_entry_kind(None, Some(DiskKind::File), Some(true)), Ok(Some(EntryKind::BlobExecutable)));
    assert_eq!(disk_kind_to_entry_kind(Some(DiskKind::File), None, Some(false)), Ok(Some(EntryKind::Blob)));
    assert_eq!(disk_kind_to_entry_kind(Some(DiskKind::File), None, None), Err(WorktreeError::NoMetadata));
    assert_eq!(disk_kind_to_entry_kind(None, None, Some(true)), Err(WorktreeError::NoTypeInformation));
    assert_eq!(disk_kind_to_entry_kind(Some(DiskKind::Directory), None, None), Err(WorktreeError::UnexpectedItem));
}

#[test]
fn paths_are_ordered_byte_by_byte() {
    let order = |a: &str, b: &str| path_order(&a.as_bytes().to_vec(), &b.as_bytes().to_vec());
    assert_eq!(order("a", "b"), PathOrder::Before);
    assert_eq!(order("b", "a"), PathOrder::After);
    assert_eq!(order("a", "a"), PathOrder::Same);
    assert_eq!(order("a", "a/b"), PathOrder::Before);
    assert_eq!(order("a/b", "a"), PathOrder::After);
    assert_eq!(order("", ""), PathOrder::Same);
    assert_eq!(order("", "a"), PathOrder::Before);
    assert_eq!(order("Z", "a"), PathOrder::Before);
    assert_eq!(path_order(&vec![0xff], &vec![0x7f, 0x01]), PathOrder::After);
}

#[test]
fn items_of_the_index_keep_ids_and_modes() {
    let deleted = convert(StatusItem::TreeIndex(IndexChange::Deletion {
        location: b"gone".to_vec(),
        entry_mode: EXECUTABLE,
        id: id('1'),
    }));
    assert_eq!(
        deleted,
        Ok(Converted::Change(
            Origin::TreeIndex,
            TreeChange {
                path: b"gone".to_vec(),
                status: TreeStatus::Deletion { previous_state: state('1', EntryKind::BlobExecutable) },
            }
        ))
    );
    let modified = convert(StatusItem::TreeIndex(IndexChange::Modification {
        location: b"tool".to_vec(),
        previous_entry_mode: FILE,
        previous_id: id('1'),
        entry_mode: EXECUTABLE,
        id: id('2'),
    }));
    assert_eq!(
        modified,
        Ok(Converted::Change(
            Origin::TreeIndex,
            TreeChange {
                path: b"tool".to_vec(),
                status: TreeStatus::Modification {
                    previous_state: state('1', EntryKind::Blob),
                    state: state('2', EntryKind::BlobExecutable),
                    flags: Some(ModeFlags::ExecutableBitAdded),
                },
            }
        ))
    );
    let renamed = convert(StatusItem::TreeIndex(IndexChange::Rewrite {
        source_location: b"old".to_vec(),
        source_entry_mode: FILE,
        source_id: id('1'),
        location: b"new".to_vec(),
        entry_mode: 0o120000,
        id: id('2'),
    }));
    assert_eq!(
        renamed,
        Ok(Converted::Change(
            Origin::TreeIndex,
            TreeChange {
                path: b"new".to_vec(),
                status: TreeStatus::Rename {
                    previous_path: b"old".to_vec(),
                    previous_state: state('1', EntryKind::Blob),
                    state: state('2', EntryKind::Link),
                    flags: Some(ModeFlags::TypeChange),
                },
            }
        ))
    );
    let broken = convert(StatusItem::TreeIndex(IndexChange::Modification {
        location: b"tool".to_vec(),
        previous_entry_mode: 7,
        previous_id: id('1'),
        entry_mode: 9,
        id: id('2'),
    }));
    assert_eq!(broken, Err(WorktreeError::InvalidEntryMode(7)));
}

#[test]
fn items_of_the_worktree_have_no_hash() {
    let entry = |status| {
        convert(StatusItem::IndexWorktree(WorktreeItem::Modification {
            rela_path: b"file".to_vec(),
            entry_mode: EXECUTABLE,
            entry_id: id('1'),
            status,
        }))
    };
    let change = |status| Ok(Converted::Change(Origin::IndexWorktree, TreeChange { path: b"file".to_vec(), status }));
    let before = state('1', EntryKind::BlobExecutable);
    assert_eq!(entry(EntryChange::Removed), change(TreeStatus::Deletion { previous_state: before }));
    assert_eq!(
        entry(EntryChange::Type { worktree_mode: 0o120000 }),
        change(TreeStatus::Modification {
            previous_state: before,
            state: unhashed(EntryKind::Link),
            flags: Some(ModeFlags::TypeChange),
        })
    );
    assert_eq!(
        entry(EntryChange::Modification { executable_bit_changed: true }),
        change(TreeStatus::Modification {
            previous_state: before,
            state: unhashed(EntryKind::Blob),
            flags: Some(ModeFlags::ExecutableBitRemoved),
        })
    );
    assert_eq!(
        entry(EntryChange::Modification { executable_bit_changed: false }),
        change(TreeStatus::Modification {
            previous_state: before,
            state: unhashed(EntryKind::BlobExecutable),
            flags: None,
        })
    );
    assert_eq!(
        entry(EntryChange::IntentToAdd),
        change(TreeStatus::Addition { state: unhashed(EntryKind::BlobExecutable), is_untracked: false })
    );
    assert_eq!(entry(EntryChange::Conflict), Ok(Converted::Conflict(b"file".to_vec())));
    assert_eq!(entry(EntryChange::NeedsUpdate), Err(WorktreeError::UnexpectedItem));
    assert_eq!(entry(EntryChange::SubmoduleModification { checked_out_head_id: None }), Ok(Converted::Skip));
}

#[test]
fn submodule_with_a_new_head_is_modified() {
    let item = StatusItem::IndexWorktree(WorktreeItem::Modification {
        rela_path: b"sub".to_vec(),
        entry_mode: 0o160000,
        entry_id: id('1'),
        status: EntryChange::SubmoduleModification { checked_out_head_id: Some(id('2')) },
    });
    assert_eq!(
        convert(item),
        Ok(Converted::Change(
            Origin::IndexWorktree,
            TreeChange {
                path: b"sub".to_vec(),
                status: TreeStatus::Modification {
                    previous_state: state('1', EntryKind::Commit),
                    state: state('2', EntryKind::Commit),
                    flags: None,
                },
            }
        ))
    );
}

#[test]
fn untracked_items_are_added_unless_untrackable() {
    assert_eq!(
        convert(untracked("new", DiskKind::File, Some(true))),
        Ok(Converted::Change(
            Origin::IndexWorktree,
            TreeChange {
                path: b"new".to_vec(),
                status: TreeStatus::Addition { state: unhashed(EntryKind::BlobExecutable), is_untracked: true },
            }
        ))
    );
    assert_eq!(convert(untracked("pipe", DiskKind::Untrackable, None)), Ok(Converted::Skip));
    assert_eq!(convert(untracked("dir", DiskKind::Directory, None)), Err(WorktreeError::UnexpectedItem));
    let ignored = StatusItem::IndexWorktree(WorktreeItem::DirectoryContents {
        entry: DirEntry {
            rela_path: b"target".to_vec(),
            disk_kind: Some(DiskKind::File),
            index_kind: None,
            status: DirStatus::Ignored,
            executable: Some(false),
        },
    });
    assert_eq!(convert(ignored), Err(WorktreeError::UnexpectedItem));
}

#[test]
fn rename_in_the_worktree_keeps_both_sides() {
    let target = DirEntry {
        rela_path: b"new".to_vec(),
        disk_kind: Some(DiskKind::File),
        index_kind: None,
        status: DirStatus::Untracked,
        executable: Some(false),
    };
    let item = StatusItem::IndexWorktree(WorktreeItem::Rewrite {
        source: RewriteSource::RewriteFromIndex {
            source_rela_path: b"old".to_vec(),
            source_entry_mode: EXECUTABLE,
            source_id: id('1'),
        },
        dirwalk_entry: target.clone(),
        dirwalk_entry_id: id('2'),
    });
    assert_eq!(
        convert(item),
        Ok(Converted::Change(
            Origin::IndexWorktree,
            TreeChange {
                path: b"new".to_vec(),
                status: TreeStatus::Rename {
                    previous_path: b"old".to_vec(),
                    previous_state: state('1', EntryKind::BlobExecutable),
                    state: state('2', EntryKind::Blob),
                    flags: Some(ModeFlags::ExecutableBitRemoved),
                },
            }
        ))
    );
    let from_pipe = StatusItem::IndexWorktree(WorktreeItem::Rewrite {
        source: RewriteSource::CopyFromDirectoryEntry {
            source_dirwalk_entry: DirEntry { disk_kind: Some(DiskKind::Untrackable), ..target.clone() },
            source_dirwalk_entry_id: id('1'),
        },
        dirwalk_entry: DirEntry { executable: None, ..target },
        dirwalk_entry_id: id('2'),
    });
    assert_eq!(convert(from_pipe), Ok(Converted::Skip));
}

#[test]
fn each_path_is_listed_once_and_the_worktree_wins() {
    let out = worktree_changes(vec![
        added_to_index("b", '1'),
        modified_in_worktree("c", '3'),
        modified_in_worktree("b", '1'),
        added_to_index("a", '2'),
        added_to_index("b", '4'),
    ])
    .unwrap();
    let paths: Vec<&[u8]> = out.changes.iter().map(|c| c.path.as_slice()).collect();
    assert_eq!(paths, vec![&b"a"[..], &b"b"[..], &b"c"[..]]);
    assert_eq!(
        out.changes[1].status,
        TreeStatus::Modification {
            previous_state: state('1', EntryKind::Blob),
            state: unhashed(EntryKind::Blob),
            flags: None,
        }
    );
    let ignored = IgnoredWorktreeChange { path: b"b".to_vec(), status: IgnoredWorktreeTreeChangeStatus::TreeIndex };
    assert_eq!(out.ignored_changes, vec![ignored.clone(), ignored]);
}

#[test]
fn changes_equal_in_rank_keep_their_order() {
    let out = worktree_changes(vec![added_to_index("a", '1'), added_to_index("a", '2')]).unwrap();
    assert_eq!(
        out.changes,
        vec![TreeChange {
            path: b"a".to_vec(),
            status: TreeStatus::Addition { state: state('1', EntryKind::Blob), is_untracked: false },
        }]
    );
    assert_eq!(out.ignored_changes.len(), 1);
}

#[test]
fn conflicts_are_ignored_and_come_first() {
    let conflict = StatusItem::IndexWorktree(WorktreeItem::Modification {
        rela_path: b"z".to_vec(),
        entry_mode: FILE,
        entry_id: id('1'),
        status: EntryChange::Conflict,
    });
    let out = worktree_changes(vec![
        added_to_index("m", '1'),
        modified_in_worktree("m", '1'),
        conflict,
        untracked("pipe", DiskKind::Untrackable, None),
    ])
    .unwrap();
    assert_eq!(out.changes.len(), 1);
    assert_eq!(
        out.ignored_changes,
        vec![
            IgnoredWorktreeChange { path: b"z".to_vec(), status: IgnoredWorktreeTreeChangeStatus::Conflict },
            IgnoredWorktreeChange { path: b"m".to_vec(), status: IgnoredWorktreeTreeChangeStatus::TreeIndex },
        ]
    );
}

#[test]
fn the_first_item_that_fails_fails_the_status() {
    let bad_mode = StatusItem::TreeIndex(IndexChange::Addition { location: b"a".to_vec(), entry_mode: 1, id: id('1') });
    let out = worktree_changes(vec![
        added_to_index("b", '1'),
        untracked("f", DiskKind::File, None),
        bad_mode,
    ]);
    assert_eq!(out, Err(WorktreeError::NoMetadata));
    assert_eq!(worktree_changes(vec![]).unwrap().changes.len(), 0);
}

#[test]
fn entry_kinds_are_those_that_gix_reads_from_a_mode() {
    let mut modes: Vec<u32> = (0..=0xffffu32).collect();
    modes.extend([0x1_0000, 0x1_8000, 0x1_81a4, 0x1_4000, 0xffff_ffff, 0x8000_0000, 0x8000_81ed]);
    for mode in modes {
        let theirs = gix::index::entry::Mode::from_bits_retain(mode).to_tree_entry_mode().map(|found| match found.kind() {
            gix::objs::tree::EntryKind::Tree => EntryKind::Tree,
            gix::objs::tree::EntryKind::Blob => EntryKind::Blob,
            gix::objs::tree::EntryKind::BlobExecutable => EntryKind::BlobExecutable,
            gix::objs::tree::EntryKind::Link => EntryKind::Link,
            gix::objs::tree::EntryKind::Commit => EntryKind::Commit,
        });
        assert_eq!(into_tree_entry_kind(mode).ok(), theirs, "mode {mode:o}");
    }
}
