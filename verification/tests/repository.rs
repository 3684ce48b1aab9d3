use stack_engine::object_id::ObjectId;
use stack_engine::repository::{
    branch_kind, is_workspace_ref, merge_base_octopussy, next_base, BranchKind, MergeBaseError, RefnameKind,
};

fn id(digit: char) -> ObjectId {
    let hex: String = std::iter::repeat(digit).take(40).collect();
    ObjectId::from_hex(&hex).unwrap()
}

fn commit(repo: &git2::Repository, message: &str, parents: &[&git2::Commit]) -> git2::Oid {
    let signature = git2::Signature::new("author", "author@example.com", &git2::Time::new(946684800, 0)).unwrap();
    let tree = repo.find_tree(repo.treebuilder(None).unwrap().write().unwrap()).unwrap();
    repo.commit(None, &signature, &signature, message, &tree, parents).unwrap()
}

fn ours(oid: git2::Oid) -> ObjectId {
    let mut bytes = [0u8; 20];
    bytes.copy_from_slice(oid.as_bytes());
    ObjectId::from_bytes(bytes)
}

#[test]
fn merge_base_of_three_branches_is_their_root() {
    let path = format!("/tmp/stack-engine-{}", uuid::Uuid::new_v4());
    let repo = git2::Repository::init_bare(&path).unwrap();
    let root = commit(&repo, "root", &[]);
    let root_commit = repo.find_commit(root).unwrap();
    let left = commit(&repo, "left", &[&root_commit]);
    let left_commit = repo.find_commit(left).unwrap();
    let further = commit(&repo, "further", &[&left_commit]);
    let right = commit(&repo, "right", &[&root_commit]);
    assert_eq!(merge_base_octopussy(&repo, &vec![ours(left), ours(further)]), Ok(ours(left)));
    assert_eq!(merge_base_octopussy(&repo, &vec![ours(further), ours(left), ours(right)]), Ok(ours(root)));
    assert_eq!(merge_base_octopussy(&repo, &vec![ours(left)]), Err(MergeBaseError::TooFew));
    assert_eq!(merge_base_octopussy(&repo, &vec![]), Err(MergeBaseError::TooFew));
    assert_eq!(merge_base_octopussy(&repo, &vec![ours(left), id('e')]), Err(MergeBaseError::NotFound));
    assert_eq!(
        MergeBaseError::TooFew.message(),
        "Merge base octopussy requires at least two commit ids to operate on"
    );
}

#[test]
fn outcome_of_a_search_is_handed_on() {
    assert_eq!(next_base(Some(id('a'))), Ok(id('a')));
    assert_eq!(next_base(None), Err(MergeBaseError::NotFound));
    assert_eq!(MergeBaseError::NotFound.message(), "Failed to find merge base");
}

#[test]
fn workspace_reference_marks_a_managed_repository() {
    assert!(is_workspace_ref("refs/heads/gitbutler/workspace"));
    assert!(!is_workspace_ref("refs/heads/gitbutler/workspace2"));
    assert!(!is_workspace_ref("refs/heads/gitbutler"));
    assert!(!is_workspace_ref("refs/heads/main"));
    assert!(!is_workspace_ref(""));
}

#[test]
fn remote_names_are_looked_up_among_remote_branches() {
    assert_eq!(branch_kind(RefnameKind::Remote), BranchKind::Remote);
    assert_eq!(branch_kind(RefnameKind::Local), BranchKind::Local);
    assert_eq!(branch_kind(RefnameKind::Virtual), BranchKind::Local);
    assert_eq!(branch_kind(RefnameKind::Other), BranchKind::Local);
}
