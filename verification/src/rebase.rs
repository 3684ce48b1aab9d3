//! The plan of a rebase and the rules that each of its steps must meet.
//!
//! A plan is built step by step on a base commit. A step that breaks a
//! rule is refused with an error that names the rule, and the plan stays
//! as it was.

use vstd::prelude::*;

use crate::object_id::{hex_encoded, ObjectId};

verus! {

/// One step of a rebase.
#[allow(inconsistent_fields)]
#[derive(Debug, PartialEq, Eq, Clone)]
pub enum RebaseStep {
    /// Pick a commit on top of what was built so far.
    Pick { commit_id: ObjectId, new_message: Option<String> },
    /// Merge a commit into what was built so far.
    Merge { commit_id: ObjectId, new_message: String },
    /// Squash a commit into the commit that was built last.
    Fixup { commit_id: ObjectId, new_message: Option<String> },
    /// Let a reference point at the commit that was built last.
    Reference { name: String },
}

/// The kind of a step that names a commit, as the messages call it.
#[derive(Debug, PartialEq, Eq, Clone, Copy, Structural)]
pub enum StepKind {
    Picked,
    Merge,
    Fixup,
}

/// Why a step, or the base, is refused.
#[derive(Debug, PartialEq, Eq, Clone, Copy)]
pub enum RebaseError {
    /// The commit does not exist.
    NotFound(ObjectId),
    /// The step names the base commit.
    BaseCommit(StepKind),
    /// An earlier step names the same commit.
    AlreadyUsed,
    /// A fixup is the first step.
    FixupFirst,
    /// A fixup follows a reference step.
    FixupAfterReference,
    /// The name of a reference step is empty.
    EmptyReference,
}

/// The text by which a kind of step is called.
pub open spec fn kind_text(kind: StepKind) -> Seq<char> {
    match kind {
        StepKind::Picked => "Picked"@,
        StepKind::Merge => "Merge"@,
        StepKind::Fixup => "Fixup"@,
    }
}

/// The message of an error.
pub open spec fn message_of(error: RebaseError) -> Seq<char> {
    match error {
        RebaseError::NotFound(id) => "An object with id "@ + hex_encoded(id@) + " could not be found"@,
        RebaseError::BaseCommit(kind) => kind_text(kind) + " commit cannot be the base commit"@,
        RebaseError::AlreadyUsed => "Picked commit already exists in a previous step"@,
        RebaseError::FixupFirst => "Fixup must have a commit to work on"@,
        RebaseError::FixupAfterReference => "Fixup commit must not come after a reference step"@,
        RebaseError::EmptyReference => "Reference step must have a non-empty name"@,
    }
}

impl RebaseError {
    /// The message of the error.
    pub fn to_string(&self) -> (s: String)
        ensures
            s@ == message_of(*self),
    {
        match self {
            RebaseError::NotFound(id) => {
                let mut s = "An object with id ".to_owned();
                let hex = id.to_hex();
                s.append(hex.as_str());
                s.append(" could not be found");
                s
            },
            RebaseError::BaseCommit(kind) => {
                let mut s = match kind {
                    StepKind::Picked => "Picked".to_owned(),
                    StepKind::Merge => "Merge".to_owned(),
                    StepKind::Fixup => "Fixup".to_owned(),
                };
                s.append(" commit cannot be the base commit");
                s
            },
            RebaseError::AlreadyUsed => "Picked commit already exists in a previous step".to_owned(),
            RebaseError::FixupFirst => "Fixup must have a commit to work on".to_owned(),
            RebaseError::FixupAfterReference => "Fixup commit must not come after a reference step".to_owned(),
            RebaseError::EmptyReference => "Reference step must have a non-empty name".to_owned(),
        }
    }
}

/// The commit that a step names, if it names one.
pub open spec fn step_commit(step: RebaseStep) -> Option<ObjectId> {
    match step {
        RebaseStep::Pick { commit_id, .. } => Some(commit_id),
        RebaseStep::Merge { commit_id, .. } => Some(commit_id),
        RebaseStep::Fixup { commit_id, .. } => Some(commit_id),
        RebaseStep::Reference { .. } => None,
    }
}

/// Whether one of the steps names the commit `id`.
pub open spec fn uses_commit(steps: Seq<RebaseStep>, id: ObjectId) -> bool {
    exists|k: int| 0 <= k < steps.len() && step_commit(#[trigger] steps[k]) == Some(id)
}

/// What is wrong with a step of kind `kind` that names the commit `id`,
/// `commits` being the commits that exist: the commit is the base, an
/// earlier step names it, or it does not exist.
pub open spec fn commit_fault(
    commits: Seq<ObjectId>,
    base: ObjectId,
    steps: Seq<RebaseStep>,
    id: ObjectId,
    kind: StepKind,
) -> Option<RebaseError> {
    if id == base {
        Some(RebaseError::BaseCommit(kind))
    } else if uses_commit(steps, id) {
        Some(RebaseError::AlreadyUsed)
    } else if !commits.contains(id) {
        Some(RebaseError::NotFound(id))
    } else {
        None
    }
}

/// What is wrong with `step` as the next step after `steps`; `None` where
/// it is in order.
pub open spec fn step_fault(
    commits: Seq<ObjectId>,
    base: ObjectId,
    steps: Seq<RebaseStep>,
    step: RebaseStep,
) -> Option<RebaseError> {
    match step {
        RebaseStep::Pick { commit_id, .. } => commit_fault(commits, base, steps, commit_id, StepKind::Picked),
        RebaseStep::Merge { commit_id, .. } => commit_fault(commits, base, steps, commit_id, StepKind::Merge),
        RebaseStep::Fixup { commit_id, .. } => match commit_fault(
            commits,
            base,
            steps,
            commit_id,
            StepKind::Fixup,
        ) {
            Some(e) => Some(e),
            None => if steps.len() == 0 {
                Some(RebaseError::FixupFirst)
            } else if steps.last() is Reference {
                Some(RebaseError::FixupAfterReference)
            } else {
                None
            },
        },
        RebaseStep::Reference { name } => if name@.len() == 0 {
            Some(RebaseError::EmptyReference)
        } else {
            None
        },
    }
}

/// Whether the steps obey the rules of a plan on `base`: each commit named
/// exists, is not the base and is named once; no fixup comes first or
/// right after a reference step; no reference step has an empty name.
pub open spec fn is_plan(commits: Seq<ObjectId>, base: ObjectId, steps: Seq<RebaseStep>) -> bool {
    &&& forall|k: int|
        0 <= k < steps.len() ==> match #[trigger] steps[k] {
            RebaseStep::Reference { name } => name@.len() > 0,
            RebaseStep::Fixup { .. } => k > 0 && !(steps[k - 1] is Reference),
            _ => true,
        }
    &&& forall|k: int|
        0 <= k < steps.len() ==> match step_commit(#[trigger] steps[k]) {
            Some(id) => id != base && commits.contains(id),
            None => true,
        }
    &&& forall|a: int, b: int|
        0 <= a < b < steps.len() && step_commit(#[trigger] steps[a]) is Some ==> step_commit(steps[a])
            != step_commit(#[trigger] steps[b])
}

/// A plan stays a plan when a step without fault is added, and any other
/// step breaks it.
pub proof fn lemma_step_keeps_plan(
    commits: Seq<ObjectId>,
    base: ObjectId,
    steps: Seq<RebaseStep>,
    step: RebaseStep,
)
    requires
        is_plan(commits, base, steps),
    ensures
        step_fault(commits, base, steps, step) is None <==> is_plan(commits, base, steps.push(step)),
{
    let next = steps.push(step);
    let n = steps.len() as int;
    assert(next[n] == step);
    assert forall|k: int| 0 <= k < n implies next[k] == steps[k] by {}
    if step_fault(commits, base, steps, step) is None {
        assert forall|a: int, b: int|
            0 <= a < b < next.len() && step_commit(#[trigger] next[a]) is Some implies step_commit(next[a])
                != step_commit(#[trigger] next[b]) by {
            if b == n {
                assert(next[a] == steps[a]);
                if step_commit(step) is Some {
                    assert(!uses_commit(steps, step_commit(step)->0));
                }
            } else {
                assert(step_commit(steps[a]) != step_commit(steps[b]));
            }
        }
        assert forall|k: int| 0 <= k < next.len() implies match #[trigger] next[k] {
            RebaseStep::Reference { name } => name@.len() > 0,
            RebaseStep::Fixup { .. } => k > 0 && !(next[k - 1] is Reference),
            _ => true,
        } by {
            if k < n {
                assert(next[k] == steps[k]);
                if k > 0 {
                    assert(next[k - 1] == steps[k - 1]);
                }
            } else if n > 0 {
                assert(next[n - 1] == steps.last());
            }
        }
        assert forall|k: int| 0 <= k < next.len() implies match step_commit(#[trigger] next[k]) {
            Some(id) => id != base && commits.contains(id),
            None => true,
        } by {
            if k < n {
                assert(next[k] == steps[k]);
            }
        }
    } else {
        if is_plan(commits, base, next) {
            match step_commit(step) {
                Some(id) => {
                    assert(step_commit(next[n]) == Some(id));
                    if uses_commit(steps, id) {
                        let k = choose|k: int| 0 <= k < steps.len() && step_commit(#[trigger] steps[k]) == Some(id);
                        assert(next[k] == steps[k]);
                        assert(step_commit(next[k]) != step_commit(next[n]));
                    }
                    if n > 0 {
                        assert(next[n - 1] == steps.last());
                    }
                },
                None => {},
            }
        }
    }
}

/// A rebase in the making: the commits that exist, the base, and the steps
/// accepted so far.
#[derive(Debug, PartialEq, Eq, Clone)]
pub struct RebaseBuilder {
    pub commits: Vec<ObjectId>,
    pub base: ObjectId,
    pub steps: Vec<RebaseStep>,
}

fn holds(ids: &Vec<ObjectId>, id: &ObjectId) -> (r: bool)
    ensures
        r == ids@.contains(*id),
{
    let mut k: usize = 0;
    while k < ids.len()
        invariant
            k <= ids.len(),
            forall|m: int| 0 <= m < k ==> ids@[m] != *id,
        decreases ids.len() - k,
    {
        if ids[k].same(id) {
            return true;
        }
        k += 1;
    }
    false
}

fn commit_of(step: &RebaseStep) -> (r: Option<ObjectId>)
    ensures
        r == step_commit(*step),
{
    match step {
        RebaseStep::Pick { commit_id, .. } => Some(*commit_id),
        RebaseStep::Merge { commit_id, .. } => Some(*commit_id),
        RebaseStep::Fixup { commit_id, .. } => Some(*commit_id),
        RebaseStep::Reference { .. } => None,
    }
}

impl RebaseBuilder {
    /// Whether the steps accepted so far form a plan.
    pub open spec fn wf(&self) -> bool {
        self.commits@.contains(self.base) && is_plan(self.commits@, self.base, self.steps@)
    }

    /// Starts a plan on the commit `base`, `commits` being the commits
    /// that exist. The base must be one of them.
    pub fn new(commits: Vec<ObjectId>, base: ObjectId) -> (r: Result<RebaseBuilder, RebaseError>)
        ensures
            match r {
                Ok(b) => commits@.contains(base) && b.commits == commits && b.base == base && b.steps@.len()
                    == 0 && b.wf(),
                Err(e) => !commits@.contains(base) && e == RebaseError::NotFound(base),
            },
    {
        if !holds(&commits, &base) {
            return Err(RebaseError::NotFound(base));
        }
        Ok(RebaseBuilder { commits, base, steps: Vec::new() })
    }

    fn check_commit(&self, id: &ObjectId, kind: StepKind) -> (r: Option<RebaseError>)
        ensures
            r == commit_fault(self.commits@, self.base, self.steps@, *id, kind),
    {
        if id.same(&self.base) {
            return Some(RebaseError::BaseCommit(kind));
        }
        let mut k: usize = 0;
        while k < self.steps.len()
            invariant
                k <= self.steps.len(),
                *id != self.base,
                forall|m: int| 0 <= m < k ==> step_commit(#[trigger] self.steps@[m]) != Some(*id),
            decreases self.steps.len() - k,
        {
            match commit_of(&self.steps[k]) {
                Some(used) => {
                    if used.same(id) {
                        assert(step_commit(self.steps@[k as int]) == Some(*id));
                        return Some(RebaseError::AlreadyUsed);
                    }
                },
                None => {},
            }
            k += 1;
        }
        if !holds(&self.commits, id) {
            return Some(RebaseError::NotFound(*id));
        }
        None
    }

    /// What is wrong with `step` as the next step; `None` where it is in order.
    pub fn validate_step(&self, step: &RebaseStep) -> (r: Option<RebaseError>)
        ensures
            r == step_fault(self.commits@, self.base, self.steps@, *step),
    {
        match step {
            RebaseStep::Pick { commit_id, .. } => self.check_commit(commit_id, StepKind::Picked),
            RebaseStep::Merge { commit_id, .. } => self.check_commit(commit_id, StepKind::Merge),
            RebaseStep::Fixup { commit_id, .. } => {
                match self.check_commit(commit_id, StepKind::Fixup) {
                    Some(e) => Some(e),
                    None => {
                        if self.steps.len() == 0 {
                            Some(RebaseError::FixupFirst)
                        } else {
                            match &self.steps[self.steps.len() - 1] {
                                RebaseStep::Reference { .. } => Some(RebaseError::FixupAfterReference),
                                _ => None,
                            }
                        }
                    },
                }
            },
            RebaseStep::Reference { name } => {
                if name.as_str().is_empty() {
                    Some(RebaseError::EmptyReference)
                } else {
                    None
                }
            },
        }
    }

    /// Adds a step to the plan. A step that breaks a rule is refused, and
    /// the plan stays as it was.
    pub fn step(&mut self, step: RebaseStep) -> (r: Result<&mut Self, RebaseError>)
        ensures
            match r {
                Ok(b) => {
                    &&& step_fault(old(self).commits@, old(self).base, old(self).steps@, step) is None
                    &&& b.steps@ == old(self).steps@.push(step)
                    &&& b.commits == old(self).commits
                    &&& b.base == old(self).base
                    &&& old(self).wf() ==> b.wf()
                    &&& *final(self) == *final(b)
                },
                Err(e) => {
                    &&& step_fault(old(self).commits@, old(self).base, old(self).steps@, step) == Some(e)
                    &&& *final(self) == *old(self)
                },
            },
    {
        match self.validate_step(&step) {
            Some(e) => Err(e),
            None => {
                proof {
                    if self.wf() {
                        lemma_step_keeps_plan(self.commits@, self.base, self.steps@, step);
                    }
                }
                self.steps.push(step);
                Ok(self)
            },
        }
    }
}

} // verus!
