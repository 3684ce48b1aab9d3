use stack_engine::object_id::ObjectId;
use stack_engine::rebase::{RebaseBuilder, RebaseError, RebaseStep, StepKind};

struct Commits {
    base: ObjectId,
    a: ObjectId,
    b: ObjectId,
    c: ObjectId,
}

fn id(digit: char) -> ObjectId {
    let hex: String = std::iter::repeat(digit).take(40).collect();
    ObjectId::from_hex(&hex).unwrap()
}

fn non_existing_commit() -> ObjectId {
    ObjectId::from_hex("eeeeeeeeeeeeeeeeeeeeeeeeeeeeeeeeeeeeeeee").unwrap()
}

/// The commits of a repository with four commits, starting from the oldest.
fn four_commits() -> (Vec<ObjectId>, Commits) {
    let commits = Commits { base: id('1'), a: id('a'), b: id('b'), c: id('c') };
    (vec![commits.c, commits.b, commits.a, commits.base], commits)
}

fn pick(commit_id: ObjectId) -> RebaseStep {
    RebaseStep::Pick { commit_id, new_message: None }
}

fn fixup(commit_id: ObjectId) -> RebaseStep {
    RebaseStep::Fixup { commit_id, new_message: None }
}

fn merge(commit_id: ObjectId) -> RebaseStep {
    RebaseStep::Merge { commit_id, new_message: "merge commit".into() }
}

#[test]
fn base_non_existing() {
    let (repo, _commits) = four_commits();
    let result = RebaseBuilder::new(repo, non_existing_commit());
    assert_eq!(
        result.unwrap_err().to_string(),
        "An object with id eeeeeeeeeeeeeeeeeeeeeeeeeeeeeeeeeeeeeeee could not be found"
    );
}

#[test]
fn non_existing_commit_in_pick_step() {
    let (repo, commits) = four_commits();
    let mut builder = RebaseBuilder::new(repo, commits.base).unwrap();
    let result = builder.step(pick(non_existing_commit()));
    assert_eq!(
        result.unwrap_err().to_string(),
        "An object with id eeeeeeeeeeeeeeeeeeeeeeeeeeeeeeeeeeeeeeee could not be found"
    );
}

#[test]
fn non_existing_commit_in_merge_step() {
    let (repo, commits) = four_commits();
    let mut builder = RebaseBuilder::new(repo, commits.base).unwrap();
    let result = builder.step(merge(non_existing_commit()));
    assert_eq!(
        result.unwrap_err().to_string(),
        "An object with id eeeeeeeeeeeeeeeeeeeeeeeeeeeeeeeeeeeeeeee could not be found"
    );
}

#[test]
fn non_existing_commit_in_fixup_step() {
    let (repo, commits) = four_commits();
    let mut builder = RebaseBuilder::new(repo, commits.base).unwrap();
    let result = builder.step(fixup(non_existing_commit()));
    assert_eq!(
        result.unwrap_err().to_string(),
        "An object with id eeeeeeeeeeeeeeeeeeeeeeeeeeeeeeeeeeeeeeee could not be found"
    );
}

#[test]
fn using_base_in_pick_step() {
    let (repo, commits) = four_commits();
    let mut builder = RebaseBuilder::new(repo, commits.base).unwrap();
    let result = builder.step(fixup(commits.base));
    assert_eq!(
        result.unwrap_err().to_string(),
        "Fixup commit cannot be the base commit"
    );
}

#[test]
fn using_base_in_merge_step() {
    let (repo, commits) = four_commits();
    let mut builder = RebaseBuilder::new(repo, commits.base).unwrap();
    let result = builder.step(merge(commits.base));
    assert_eq!(
        result.unwrap_err().to_string(),
        "Merge commit cannot be the base commit"
    );
}

#[test]
fn using_base_in_fixup_step() {
    let (repo, commits) = four_commits();
    let mut builder = RebaseBuilder::new(repo, commits.base).unwrap();
    let result = builder.step(fixup(commits.base));
    assert_eq!(
        result.unwrap_err().to_string(),
        "Fixup commit cannot be the base commit"
    );
}

#[test]
fn using_picked_commit_in_a_pick_step() {
    let (repo, commits) = four_commits();
    let mut builder = RebaseBuilder::new(repo, commits.base).unwrap();
    let result = builder
        .step(pick(commits.a))
        .unwrap()
        .step(pick(commits.a));
    assert_eq!(
        result.unwrap_err().to_string(),
        "Picked commit already exists in a previous step"
    );
}

#[test]
fn using_merged_commit_in_a_pick_step() {
    let (repo, commits) = four_commits();
    let mut builder = RebaseBuilder::new(repo, commits.base).unwrap();
    let result = builder
        .step(merge(commits.a))
        .unwrap()
        .step(pick(commits.a));
    assert_eq!(
        result.unwrap_err().to_string(),
        "Picked commit already exists in a previous step"
    );
}

#[test]
fn using_fixup_commit_in_a_pick_step() {
    let (repo, commits) = four_commits();
    let mut builder = RebaseBuilder::new(repo, commits.base).unwrap();
    let result = builder
        .step(pick(commits.a))
        .unwrap()
        .step(fixup(commits.b))
        .unwrap()
        .step(pick(commits.b));
    assert_eq!(
        result.unwrap_err().to_string(),
        "Picked commit already exists in a previous step"
    );
}

#[test]
fn using_picked_commit_in_a_merge_step() {
    let (repo, commits) = four_commits();
    let mut builder = RebaseBuilder::new(repo, commits.base).unwrap();
    let result = builder
        .step(pick(commits.a))
        .unwrap()
        .step(merge(commits.a));
    assert_eq!(
        result.unwrap_err().to_string(),
        "Picked commit already exists in a previous step"
    );
}

#[test]
fn using_merged_commit_in_a_merge_step() {
    let (repo, commits) = four_commits();
    let mut builder = RebaseBuilder::new(repo, commits.base).unwrap();
    let result = builder
        .step(merge(commits.a))
        .unwrap()
        .step(merge(commits.a));
    assert_eq!(
        result.unwrap_err().to_string(),
        "Picked commit already exists in a previous step"
    );
}

#[test]
fn using_fixup_commit_in_a_merge_step() {
    let (repo, commits) = four_commits();
    let mut builder = RebaseBuilder::new(repo, commits.base).unwrap();
    let result = builder
        .step(pick(commits.a))
        .unwrap()
        .step(fixup(commits.b))
        .unwrap()
        .step(merge(commits.b));
    assert_eq!(
        result.unwrap_err().to_string(),
        "Picked commit already exists in a previous step"
    );
}

#[test]
fn using_picked_commit_in_a_fixup_step() {
    let (repo, commits) = four_commits();
    let mut builder = RebaseBuilder::new(repo, commits.base).unwrap();
    let result = builder
        .step(pick(commits.a))
        .unwrap()
        .step(fixup(commits.a));
    assert_eq!(
        result.unwrap_err().to_string(),
        "Picked commit already exists in a previous step"
    );
}

#[test]
fn using_merged_commit_in_a_fixup_step() {
    let (repo, commits) = four_commits();
    let mut builder = RebaseBuilder::new(repo, commits.base).unwrap();
    let result = builder
        .step(merge(commits.a))
        .unwrap()
        .step(fixup(commits.a));
    assert_eq!(
        result.unwrap_err().to_string(),
        "Picked commit already exists in a previous step"
    );
}

#[test]
fn using_fixup_commit_in_a_fixup_step() {
    let (repo, commits) = four_commits();
    let mut builder = RebaseBuilder::new(repo, commits.base).unwrap();
    let result = builder
        .step(pick(commits.a))
        .unwrap()
        .step(fixup(commits.b))
        .unwrap()
        .step(fixup(commits.b));
    assert_eq!(
        result.unwrap_err().to_string(),
        "Picked commit already exists in a previous step"
    );
}

#[test]
fn fixup_is_first_step() {
    let (repo, commits) = four_commits();
    let mut builder = RebaseBuilder::new(repo, commits.base).unwrap();
    let result = builder.step(fixup(commits.a));
    assert_eq!(
        result.unwrap_err().to_string(),
        "Fixup must have a commit to work on"
    );
}

#[test]
fn fixup_is_only_preceeded_by_a_reference_step() {
    let (repo, commits) = four_commits();
    let mut builder = RebaseBuilder::new(repo, commits.base).unwrap();
    let result = builder
        .step(RebaseStep::Reference { name: "foo/bar".into() })
        .unwrap()
        .step(fixup(commits.a));
    assert_eq!(
        result.unwrap_err().to_string(),
        "Fixup commit must not come after a reference step"
    );
}

#[test]
fn empty_reference_step() {
    let (repo, commits) = four_commits();
    let mut builder = RebaseBuilder::new(repo, commits.base).unwrap();
    let result = builder.step(RebaseStep::Reference { name: "".into() });
    assert_eq!(
        result.unwrap_err().to_string(),
        "Reference step must have a non-empty name"
    );
}

#[test]
fn single_stack_journey() {
    let (repo, commits) = four_commits();
    let mut builder = RebaseBuilder::new(repo, commits.base).unwrap();
    let steps = vec![
        RebaseStep::Pick { commit_id: commits.a, new_message: Some("first step: pick a".into()) },
        RebaseStep::Fixup { commit_id: commits.b, new_message: Some("second step: squash b into a".into()) },
        RebaseStep::Reference { name: "anchor".into() },
        RebaseStep::Merge { commit_id: commits.c, new_message: "third step: merge C into b".into() },
    ];
    builder
        .step(steps[0].clone())
        .unwrap()
        .step(steps[1].clone())
        .unwrap()
        .step(steps[2].clone())
        .unwrap()
        .step(steps[3].clone())
        .unwrap();
    assert_eq!(builder.steps, steps);
    assert_eq!(builder.base, commits.base);
}

#[test]
fn plan_without_the_pick_refuses_the_fixup() {
    let (repo, commits) = four_commits();
    let mut builder = RebaseBuilder::new(repo, commits.base).unwrap();
    let result = builder.step(RebaseStep::Fixup { commit_id: commits.b, new_message: None });
    assert_eq!(result.unwrap_err(), RebaseError::FixupFirst);
    assert!(builder.steps.is_empty());
}

#[test]
fn refused_step_leaves_the_plan_as_it_was() {
    let (repo, commits) = four_commits();
    let mut builder = RebaseBuilder::new(repo, commits.base).unwrap();
    builder.step(pick(commits.a)).unwrap();
    let before = builder.clone();
    assert_eq!(builder.validate_step(&pick(commits.a)), Some(RebaseError::AlreadyUsed));
    assert_eq!(builder.step(pick(commits.a)).unwrap_err(), RebaseError::AlreadyUsed);
    assert_eq!(builder.step(pick(commits.base)).unwrap_err(), RebaseError::BaseCommit(StepKind::Picked));
    assert_eq!(builder, before);
    assert_eq!(
        RebaseError::BaseCommit(StepKind::Picked).to_string(),
        "Picked commit cannot be the base commit"
    );
    assert_eq!(builder.validate_step(&fixup(commits.b)), None);
}
