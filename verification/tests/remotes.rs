use stack_engine::graph::init::RemoteTip;
use stack_engine::graph::refs::{leave_out, NamedRef};
use stack_engine::graph::remotes::{
    deduced_tracking_branch, extract_remote_name, first_resolved, name_order, sorted_names, symbolic_remote_names,
    tracking_candidates,
};
use stack_engine::object_id::ObjectId;
use stack_engine::worktree::PathOrder;

fn names(list: &[&str]) -> Vec<String> {
    list.iter().map(|name| name.to_string()).collect()
}

#[test]
fn names_are_compared_byte_by_byte() {
    assert_eq!(name_order(&"origin".to_string(), &"upstream".to_string()), PathOrder::Before);
    assert_eq!(name_order(&"origin".to_string(), &"origin".to_string()), PathOrder::Same);
    assert_eq!(name_order(&"origin2".to_string(), &"origin".to_string()), PathOrder::After);
    assert_eq!(name_order(&"Z".to_string(), &"a".to_string()), PathOrder::Before);
    assert_eq!(name_order(&"é".to_string(), &"z".to_string()), PathOrder::After);
    assert_eq!(name_order(&"".to_string(), &"a".to_string()), PathOrder::Before);
}

#[test]
fn names_are_sorted_and_listed_once() {
    assert_eq!(sorted_names(names(&["upstream", "origin", "upstream", "fork", "origin"])), names(&["fork", "origin", "upstream"]));
    let mut expected = names(&["b", "a", "c", "a", "é", "B"]);
    expected.sort();
    expected.dedup();
    assert_eq!(sorted_names(names(&["b", "a", "c", "a", "é", "B"])), expected);
    assert!(sorted_names(Vec::new()).is_empty());
}

#[test]
fn push_remotes_come_before_the_remotes_of_targets() {
    let found = symbolic_remote_names(names(&["upstream", "fork", "fork"]), names(&["origin", "fork", "origin"]));
    assert_eq!(found, names(&["fork", "upstream", "fork", "origin"]));
    assert_eq!(symbolic_remote_names(Vec::new(), names(&["origin"])), names(&["origin"]));
}

#[test]
fn remote_of_a_tracking_branch_is_the_first_that_fits() {
    let remotes = names(&["fork", "origin", "origin/nested"]);
    assert_eq!(extract_remote_name(&"refs/remotes/origin/main".to_string(), &remotes), Some(1));
    assert_eq!(extract_remote_name(&"refs/remotes/origin/nested/main".to_string(), &remotes), Some(1));
    assert_eq!(extract_remote_name(&"refs/remotes/fork/a/b".to_string(), &remotes), Some(0));
    assert_eq!(extract_remote_name(&"refs/remotes/other/main".to_string(), &remotes), None);
    assert_eq!(extract_remote_name(&"refs/remotes/origin".to_string(), &remotes), None);
    assert_eq!(extract_remote_name(&"refs/heads/origin/main".to_string(), &remotes), None);
}

#[test]
fn tracking_branch_is_deduced_from_the_name_of_the_local_branch() {
    assert_eq!(
        deduced_tracking_branch(&"refs/heads/feature/one".to_string(), &"origin".to_string()),
        Some("refs/remotes/origin/feature/one".to_string())
    );
    assert_eq!(deduced_tracking_branch(&"refs/heads/".to_string(), &"origin".to_string()), Some("refs/remotes/origin/".to_string()));
    assert_eq!(deduced_tracking_branch(&"refs/tags/v1".to_string(), &"origin".to_string()), None);
    assert_eq!(
        tracking_candidates(&"refs/heads/main".to_string(), &names(&["fork", "origin"])),
        names(&["refs/remotes/fork/main", "refs/remotes/origin/main"])
    );
    assert!(tracking_candidates(&"refs/remotes/origin/main".to_string(), &names(&["fork"])).is_empty());
}

#[test]
fn first_name_that_points_at_a_commit_is_the_tracking_branch() {
    let a = ObjectId::from_bytes([1; 20]);
    let b = ObjectId::from_bytes([2; 20]);
    let looked_for = names(&["refs/remotes/fork/main", "refs/remotes/origin/main", "refs/remotes/upstream/main"]);
    assert_eq!(
        first_resolved(&looked_for, &vec![None, Some(a), Some(b)]),
        Some(RemoteTip { ref_name: "refs/remotes/origin/main".into(), id: a })
    );
    assert_eq!(first_resolved(&looked_for, &vec![None, None, None]), None);
    assert_eq!(first_resolved(&looked_for, &vec![None]), None);
    assert_eq!(first_resolved(&Vec::new(), &vec![Some(a)]), None);
}

#[test]
fn references_of_workspaces_are_left_out() {
    let a = ObjectId::from_bytes([1; 20]);
    let named = vec![
        NamedRef { name: "refs/heads/main".into(), id: a },
        NamedRef { name: "refs/heads/gitbutler/workspace".into(), id: a },
        NamedRef { name: "refs/heads/feature".into(), id: a },
    ];
    let kept = leave_out(named.clone(), &names(&["refs/heads/gitbutler/workspace", "refs/heads/other"]));
    assert_eq!(kept, vec![named[0].clone(), named[2].clone()]);
    assert_eq!(leave_out(named.clone(), &Vec::new()), named);
}
