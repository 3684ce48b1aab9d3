use stack_engine::object_id::ObjectId;
use stack_engine::reference::{
    create_branch_reference, list_commit_references, parse_remote_refname, push_branch_reference,
    update_branch_reference, validate_commit, BranchReference, ReferenceError,
};

fn id(digit: char) -> ObjectId {
    let hex: String = std::iter::repeat(digit).take(40).collect();
    ObjectId::from_hex(&hex).unwrap()
}

fn reference(upstream: &str, commit: char) -> BranchReference {
    BranchReference { upstream: upstream.into(), branch_id: 7, commit_id: id(commit), change_id: None }
}

#[test]
fn remote_names_are_split_at_the_remote() {
    assert_eq!(
        parse_remote_refname("refs/remotes/origin/feature/one"),
        Some(("origin".to_string(), "feature/one".to_string()))
    );
    assert_eq!(parse_remote_refname("refs/remotes/origin/"), Some(("origin".to_string(), String::new())));
    assert_eq!(parse_remote_refname("refs/remotes/origin"), None);
    assert_eq!(parse_remote_refname("refs/heads/main"), None);
    assert_eq!(parse_remote_refname(""), None);
}

#[test]
fn references_are_created_by_the_rules() {
    let all = vec![reference("refs/remotes/origin/a", 'a')];
    let commits = vec![id('a'), id('b')];
    let make = |upstream: &str, commit: char| {
        create_branch_reference(&all, &commits, 7, upstream.into(), id(commit), Some("change".into()))
    };
    assert_eq!(
        make("refs/remotes/origin/b", 'b'),
        Ok(BranchReference {
            upstream: "refs/remotes/origin/b".into(),
            branch_id: 7,
            commit_id: id('b'),
            change_id: Some("change".into()),
        })
    );
    assert_eq!(make("origin/b", 'b'), Err(ReferenceError::NotRemote));
    assert_eq!(
        make("refs/remotes/origin/a", 'b'),
        Err(ReferenceError::NameExists("refs/remotes/origin/a".into()))
    );
    assert_eq!(make("refs/remotes/origin/b", 'a'), Err(ReferenceError::CommitReferenced(id('a'))));
    assert_eq!(make("refs/remotes/origin/c", 'c'), Err(ReferenceError::CommitOutside(id('c'))));
    assert_eq!(
        ReferenceError::NameExists("refs/remotes/origin/a".into()).to_string(),
        "A reference refs/remotes/origin/a already exists"
    );
    assert_eq!(
        ReferenceError::CommitReferenced(id('a')).to_string(),
        "A reference for commit aaaaaaaaaaaaaaaaaaaaaaaaaaaaaaaaaaaaaaaa already exists"
    );
    assert_eq!(
        ReferenceError::CommitOutside(id('c')).to_string(),
        "The commit cccccccccccccccccccccccccccccccccccccccc is not between the branch base and the branch head"
    );
    assert_eq!(ReferenceError::NotRemote.to_string(), "Failed to parse the provided reference");
    assert_eq!(ReferenceError::NotFound("x".into()).to_string(), "Reference x not found");
}

#[test]
fn references_are_moved_within_the_branch() {
    let mut references = vec![reference("refs/remotes/origin/a", 'a'), reference("refs/remotes/origin/b", 'b')];
    let commits = vec![id('a'), id('b'), id('c')];
    let moved = update_branch_reference(&mut references, &commits, "refs/remotes/origin/b".into(), id('c'), None);
    assert_eq!(moved, Ok(reference("refs/remotes/origin/b", 'c')));
    assert_eq!(references, vec![reference("refs/remotes/origin/a", 'a'), reference("refs/remotes/origin/b", 'c')]);
    let before = references.clone();
    assert_eq!(
        update_branch_reference(&mut references, &commits, "refs/remotes/origin/x".into(), id('c'), None),
        Err(ReferenceError::NotFound("refs/remotes/origin/x".into()))
    );
    assert_eq!(
        update_branch_reference(&mut references, &commits, "refs/remotes/origin/a".into(), id('d'), None),
        Err(ReferenceError::CommitOutside(id('d')))
    );
    assert_eq!(references, before);
    assert_eq!(validate_commit(&commits, id('a')), Ok(()));
}

#[test]
fn commits_are_listed_with_their_first_reference() {
    let references = vec![reference("refs/remotes/origin/a", 'a'), reference("refs/remotes/origin/again", 'a')];
    let listed = list_commit_references(&references, &vec![id('b'), id('a')]);
    assert_eq!(listed, vec![(id('b'), None), (id('a'), Some(reference("refs/remotes/origin/a", 'a')))]);
    assert_eq!(
        push_branch_reference(&references, &"refs/remotes/origin/again".to_string()),
        Ok((id('a'), "origin".to_string(), "again".to_string()))
    );
    assert_eq!(
        push_branch_reference(&references, &"refs/remotes/origin/none".to_string()),
        Err(ReferenceError::NotFound("refs/remotes/origin/none".into()))
    );
}
