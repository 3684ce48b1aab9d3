//! The references of a branch: names of remote branches that point at
//! commits of the branch.

use vstd::prelude::*;

use crate::object_id::{hex_encoded, ObjectId};
use crate::text::{chars_of, has_prefix, starts_with, string_of};

verus! {

/// A reference of a branch.
#[derive(Debug, PartialEq, Eq, Clone)]
pub struct BranchReference {
    /// The name of the remote branch, as in `refs/remotes/origin/feature`.
    pub upstream: String,
    /// The branch that the reference belongs to.
    pub branch_id: u128,
    /// The commit that the reference points at.
    pub commit_id: ObjectId,
    /// The change that the commit stands for, if it names one.
    pub change_id: Option<String>,
}

/// Why a reference is refused.
#[derive(Debug, PartialEq, Eq, Clone)]
pub enum ReferenceError {
    /// The name is not that of a remote branch.
    NotRemote,
    /// There is a reference of that name.
    NameExists(String),
    /// There is a reference to that commit.
    CommitReferenced(ObjectId),
    /// The commit is not between the base and the head of the branch.
    CommitOutside(ObjectId),
    /// The branch has no reference of that name.
    NotFound(String),
}

/// The message of an error.
pub open spec fn message_of(error: ReferenceError) -> Seq<char> {
    match error {
        ReferenceError::NotRemote => "Failed to parse the provided reference"@,
        ReferenceError::NameExists(name) => "A reference "@ + name@ + " already exists"@,
        ReferenceError::CommitReferenced(id) => "A reference for commit "@ + hex_encoded(id@) + " already exists"@,
        ReferenceError::CommitOutside(id) => "The commit "@ + hex_encoded(id@)
            + " is not between the branch base and the branch head"@,
        ReferenceError::NotFound(name) => "Reference "@ + name@ + " not found"@,
    }
}

impl ReferenceError {
    /// The message of the error.
    pub fn to_string(&self) -> (s: String)
        ensures
            s@ == message_of(*self),
    {
        match self {
            ReferenceError::NotRemote => "Failed to parse the provided reference".to_owned(),
            ReferenceError::NameExists(name) => {
                let mut s = "A reference ".to_owned();
                s.append(name.as_str());
                s.append(" already exists");
                s
            },
            ReferenceError::CommitReferenced(id) => {
                let mut s = "A reference for commit ".to_owned();
                let hex = id.to_hex();
                s.append(hex.as_str());
                s.append(" already exists");
                s
            },
            ReferenceError::CommitOutside(id) => {
                let mut s = "The commit ".to_owned();
                let hex = id.to_hex();
                s.append(hex.as_str());
                s.append(" is not between the branch base and the branch head");
                s
            },
            ReferenceError::NotFound(name) => {
                let mut s = "Reference ".to_owned();
                s.append(name.as_str());
                s.append(" not found");
                s
            },
        }
    }
}

/// Position of the first `/` of `s` at or after `from`; the length of `s` if there is none.
pub open spec fn slash_from(s: Seq<char>, from: int) -> int
    decreases s.len() - from,
{
    if from >= s.len() {
        s.len() as int
    } else if s[from] == '/' {
        from
    } else {
        slash_from(s, from + 1)
    }
}

/// Remote and branch of the name of a remote branch: what stands between
/// `refs/remotes/` and the next `/`, and what follows that.
pub open spec fn remote_and_branch(name: Seq<char>) -> Option<(Seq<char>, Seq<char>)> {
    let slash = slash_from(name, 13);
    if starts_with(name, "refs/remotes/"@) && slash < name.len() {
        Some((name.subrange(13, slash), name.subrange(slash + 1, name.len() as int)))
    } else {
        None
    }
}

/// Reads the name of a remote branch.
pub fn parse_remote_refname(name: &str) -> (r: Option<(String, String)>)
    ensures
        match r {
            Some((remote, branch)) => remote_and_branch(name@) == Some((remote@, branch@)),
            None => remote_and_branch(name@) is None,
        },
{
    proof {
        reveal_strlit("refs/remotes/");
    }
    if !has_prefix(name, "refs/remotes/") {
        return None;
    }
    let text = chars_of(name);
    let mut k: usize = 13;
    while k < text.len() && text[k] != '/'
        invariant
            13 <= k <= text.len(),
            slash_from(text@, 13) == slash_from(text@, k as int),
        decreases text.len() - k,
    {
        k += 1;
    }
    if k >= text.len() {
        return None;
    }
    Some((string_of(&text, 13, k), string_of(&text, k + 1, text.len())))
}

/// Position of the first reference to the commit `id`.
pub open spec fn reference_to(references: Seq<BranchReference>, id: ObjectId) -> Option<int>
    decreases references.len(),
{
    if references.len() == 0 {
        None
    } else {
        match reference_to(references.drop_last(), id) {
            Some(k) => Some(k),
            None => if references.last().commit_id == id {
                Some(references.len() - 1)
            } else {
                None
            },
        }
    }
}

/// Position of the first reference of the name `upstream`.
pub open spec fn reference_named(references: Seq<BranchReference>, upstream: Seq<char>) -> Option<int>
    decreases references.len(),
{
    if references.len() == 0 {
        None
    } else {
        match reference_named(references.drop_last(), upstream) {
            Some(k) => Some(k),
            None => if references.last().upstream@ == upstream {
                Some(references.len() - 1)
            } else {
                None
            },
        }
    }
}

proof fn lemma_reference_to(references: Seq<BranchReference>, id: ObjectId)
    ensures
        match reference_to(references, id) {
            Some(k) => 0 <= k < references.len() && references[k].commit_id == id && forall|m: int|
                0 <= m < k ==> (#[trigger] references[m]).commit_id != id,
            None => forall|m: int| 0 <= m < references.len() ==> (#[trigger] references[m]).commit_id != id,
        },
    decreases references.len(),
{
    if references.len() > 0 {
        lemma_reference_to(references.drop_last(), id);
        assert forall|m: int| 0 <= m < references.len() - 1 implies references[m] == references.drop_last()[m] by {}
    }
}

proof fn lemma_reference_named(references: Seq<BranchReference>, upstream: Seq<char>)
    ensures
        match reference_named(references, upstream) {
            Some(k) => 0 <= k < references.len() && references[k].upstream@ == upstream && forall|m: int|
                0 <= m < k ==> (#[trigger] references[m]).upstream@ != upstream,
            None => forall|m: int| 0 <= m < references.len() ==> (#[trigger] references[m]).upstream@ != upstream,
        },
    decreases references.len(),
{
    if references.len() > 0 {
        lemma_reference_named(references.drop_last(), upstream);
        assert forall|m: int| 0 <= m < references.len() - 1 implies references[m] == references.drop_last()[m] by {}
    }
}

/// Position of the first reference to the commit `id`.
pub fn find_reference_to(references: &Vec<BranchReference>, id: &ObjectId) -> (r: Option<usize>)
    ensures
        match r {
            Some(k) => reference_to(references@, *id) == Some(k as int) && k < references@.len(),
            None => reference_to(references@, *id) is None,
        },
{
    let mut k: usize = 0;
    while k < references.len()
        invariant
            k <= references.len(),
            forall|m: int| 0 <= m < k ==> (#[trigger] references@[m]).commit_id != *id,
        decreases references.len() - k,
    {
        if references[k].commit_id.same(id) {
            proof {
                lemma_reference_to(references@, *id);
            }
            return Some(k);
        }
        k += 1;
    }
    proof {
        lemma_reference_to(references@, *id);
    }
    None
}

/// Position of the first reference of the name `upstream`.
pub fn find_reference_named(references: &Vec<BranchReference>, upstream: &String) -> (r: Option<usize>)
    ensures
        match r {
            Some(k) => reference_named(references@, upstream@) == Some(k as int) && k < references@.len(),
            None => reference_named(references@, upstream@) is None,
        },
{
    let mut k: usize = 0;
    while k < references.len()
        invariant
            k <= references.len(),
            forall|m: int| 0 <= m < k ==> (#[trigger] references@[m]).upstream@ != upstream@,
        decreases references.len() - k,
    {
        if references[k].upstream == *upstream {
            proof {
                lemma_reference_named(references@, upstream@);
            }
            return Some(k);
        }
        k += 1;
    }
    proof {
        lemma_reference_named(references@, upstream@);
    }
    None
}

/// A copy of the reference.
pub fn copy_of(reference: &BranchReference) -> (r: BranchReference)
    ensures
        r == *reference,
{
    BranchReference {
        upstream: reference.upstream.clone(),
        branch_id: reference.branch_id,
        commit_id: reference.commit_id,
        change_id: match &reference.change_id {
            Some(c) => Some(c.clone()),
            None => None,
        },
    }
}

/// For each of `commits`, the first of `references` that points at it.
pub fn list_commit_references(references: &Vec<BranchReference>, commits: &Vec<ObjectId>) -> (r: Vec<
    (ObjectId, Option<BranchReference>),
>)
    ensures
        r@.len() == commits@.len(),
        forall|k: int|
            0 <= k < r@.len() ==> (#[trigger] r@[k]).0 == commits@[k] && r@[k].1 == match reference_to(
                references@,
                commits@[k],
            ) {
                Some(m) => Some(references@[m]),
                None => None::<BranchReference>,
            },
{
    let mut out: Vec<(ObjectId, Option<BranchReference>)> = Vec::new();
    let mut k: usize = 0;
    while k < commits.len()
        invariant
            k <= commits.len(),
            out@.len() == k,
            forall|j: int|
                0 <= j < k ==> (#[trigger] out@[j]).0 == commits@[j] && out@[j].1 == match reference_to(
                    references@,
                    commits@[j],
                ) {
                    Some(m) => Some(references@[m]),
                    None => None::<BranchReference>,
                },
        decreases commits.len() - k,
    {
        let found = match find_reference_to(references, &commits[k]) {
            Some(m) => Some(copy_of(&references[m])),
            None => None,
        };
        out.push((commits[k], found));
        k += 1;
    }
    out
}

/// Whether the branch holds the commit: it is one of the commits between
/// the base and the head of the branch.
pub fn validate_commit(branch_commits: &Vec<ObjectId>, commit_id: ObjectId) -> (r: Result<(), ReferenceError>)
    ensures
        r == if branch_commits@.contains(commit_id) {
            Ok::<(), ReferenceError>(())
        } else {
            Err::<(), ReferenceError>(ReferenceError::CommitOutside(commit_id))
        },
{
    let mut k: usize = 0;
    while k < branch_commits.len()
        invariant
            k <= branch_commits.len(),
            forall|m: int| 0 <= m < k ==> branch_commits@[m] != commit_id,
        decreases branch_commits.len() - k,
    {
        if branch_commits[k].same(&commit_id) {
            return Ok(());
        }
        k += 1;
    }
    Err(ReferenceError::CommitOutside(commit_id))
}

/// What is wrong with a new reference `upstream` to the commit
/// `commit_id`, in this order: the name is not that of a remote branch, a
/// reference of the name exists, a reference to the commit exists, or the
/// branch does not hold the commit.
pub open spec fn creation_fault(
    references: Seq<BranchReference>,
    branch_commits: Seq<ObjectId>,
    upstream: String,
    commit_id: ObjectId,
) -> Option<ReferenceError> {
    if remote_and_branch(upstream@) is None {
        Some(ReferenceError::NotRemote)
    } else if reference_named(references, upstream@) is Some {
        Some(ReferenceError::NameExists(upstream))
    } else if reference_to(references, commit_id) is Some {
        Some(ReferenceError::CommitReferenced(commit_id))
    } else if !branch_commits.contains(commit_id) {
        Some(ReferenceError::CommitOutside(commit_id))
    } else {
        None
    }
}

/// Makes a reference `upstream` of the branch `branch_id` to the commit
/// `commit_id`, `all_references` being the references of all branches and
/// `branch_commits` the commits of the branch.
pub fn create_branch_reference(
    all_references: &Vec<BranchReference>,
    branch_commits: &Vec<ObjectId>,
    branch_id: u128,
    upstream: String,
    commit_id: ObjectId,
    change_id: Option<String>,
) -> (r: Result<BranchReference, ReferenceError>)
    ensures
        match creation_fault(all_references@, branch_commits@, upstream, commit_id) {
            Some(e) => r == Err::<BranchReference, ReferenceError>(e),
            None => r == Ok::<BranchReference, ReferenceError>(
                BranchReference { upstream, branch_id, commit_id, change_id },
            ),
        },
{
    if parse_remote_refname(upstream.as_str()).is_none() {
        return Err(ReferenceError::NotRemote);
    }
    if find_reference_named(all_references, &upstream).is_some() {
        return Err(ReferenceError::NameExists(upstream));
    }
    if find_reference_to(all_references, &commit_id).is_some() {
        return Err(ReferenceError::CommitReferenced(commit_id));
    }
    match validate_commit(branch_commits, commit_id) {
        Err(e) => Err(e),
        Ok(()) => Ok(BranchReference { upstream, branch_id, commit_id, change_id }),
    }
}

/// What is wrong with moving the reference `upstream` to the commit
/// `commit_id`, in this order: the name is not that of a remote branch,
/// the branch does not hold the commit, or it has no such reference.
pub open spec fn update_fault(
    references: Seq<BranchReference>,
    branch_commits: Seq<ObjectId>,
    upstream: String,
    commit_id: ObjectId,
) -> Option<ReferenceError> {
    if remote_and_branch(upstream@) is None {
        Some(ReferenceError::NotRemote)
    } else if !branch_commits.contains(commit_id) {
        Some(ReferenceError::CommitOutside(commit_id))
    } else if reference_named(references, upstream@) is None {
        Some(ReferenceError::NotFound(upstream))
    } else {
        None
    }
}

/// Lets the reference `upstream` of a branch point at the commit
/// `new_commit_id`; `references` are the references of the branch.
/// Nothing changes where the move is refused.
pub fn update_branch_reference(
    references: &mut Vec<BranchReference>,
    branch_commits: &Vec<ObjectId>,
    upstream: String,
    new_commit_id: ObjectId,
    new_change_id: Option<String>,
) -> (r: Result<BranchReference, ReferenceError>)
    ensures
        match update_fault(old(references)@, branch_commits@, upstream, new_commit_id) {
            Some(e) => r == Err::<BranchReference, ReferenceError>(e) && *final(references) == *old(references),
            None => {
                let k = reference_named(old(references)@, upstream@)->0;
                &&& r is Ok
                &&& r->Ok_0.upstream == old(references)@[k].upstream
                &&& r->Ok_0.branch_id == old(references)@[k].branch_id
                &&& r->Ok_0.commit_id == new_commit_id
                &&& r->Ok_0.change_id == new_change_id
                &&& final(references)@.len() == old(references)@.len()
                &&& final(references)@[k] == r->Ok_0
                &&& forall|m: int|
                    0 <= m < old(references)@.len() && m != k ==> final(references)@[m] == old(references)@[m]
            },
        },
{
    if parse_remote_refname(upstream.as_str()).is_none() {
        return Err(ReferenceError::NotRemote);
    }
    match validate_commit(branch_commits, new_commit_id) {
        Err(e) => {
            return Err(e);
        },
        Ok(()) => {},
    }
    match find_reference_named(references, &upstream) {
        None => Err(ReferenceError::NotFound(upstream)),
        Some(k) => {
            let kept = copy_of(&references[k]);
            let changed = BranchReference {
                upstream: kept.upstream,
                branch_id: kept.branch_id,
                commit_id: new_commit_id,
                change_id: new_change_id,
            };
            let given = copy_of(&changed);
            references[k] = changed;
            Ok(given)
        },
    }
}

/// What to push for the reference `upstream` of a branch: the commit, and
/// remote and branch of the name.
pub fn push_branch_reference(references: &Vec<BranchReference>, upstream: &String) -> (r: Result<
    (ObjectId, String, String),
    ReferenceError,
>)
    ensures
        match reference_named(references@, upstream@) {
            None => r == Err::<(ObjectId, String, String), ReferenceError>(ReferenceError::NotFound(*upstream)),
            Some(k) => match r {
                Ok((id, remote, branch)) => id == references@[k].commit_id && remote_and_branch(
                    references@[k].upstream@,
                ) == Some((remote@, branch@)),
                Err(e) => e == ReferenceError::NotRemote && remote_and_branch(references@[k].upstream@) is None,
            },
        },
{
    match find_reference_named(references, upstream) {
        None => Err(ReferenceError::NotFound(upstream.clone())),
        Some(k) => match parse_remote_refname(references[k].upstream.as_str()) {
            None => Err(ReferenceError::NotRemote),
            Some((remote, branch)) => Ok((references[k].commit_id, remote, branch)),
        },
    }
}

} // verus!
