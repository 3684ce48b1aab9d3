//! Questions to a repository that take more than one answer to settle.

use vstd::prelude::*;

use crate::object_id::ObjectId;
use crate::text::has_prefix;

verus! {

/// `git2::Repository`, carried as it is: nothing is known of what it holds.
#[verifier::external_type_specification]
#[verifier::external_body]
pub struct ExRepository(git2::Repository);

/// Why no common ancestor was found.
#[derive(Debug, PartialEq, Eq, Clone, Copy, Structural)]
pub enum MergeBaseError {
    /// Fewer than two commits were given.
    TooFew,
    /// Two commits have no common ancestor, or one of them is missing.
    NotFound,
}

impl MergeBaseError {
    /// The message of the error.
    pub fn message(&self) -> (s: &'static str)
        ensures
            s@ == match self {
                MergeBaseError::TooFew => "Merge base octopussy requires at least two commit ids to operate on"@,
                MergeBaseError::NotFound => "Failed to find merge base"@,
            },
    {
        match self {
            MergeBaseError::TooFew => "Merge base octopussy requires at least two commit ids to operate on",
            MergeBaseError::NotFound => "Failed to find merge base",
        }
    }
}

/// Calls `git2::Repository::merge_base` on two commits. What it finds
/// depends on the repository; nothing is claimed of it. `None` stands for
/// its error.
#[verifier::external_body]
fn merge_base_of(repo: &git2::Repository, one: &ObjectId, two: &ObjectId) -> (r: Option<ObjectId>) {
    let one = git2::Oid::from_bytes(&one.bytes).ok()?;
    let two = git2::Oid::from_bytes(&two.bytes).ok()?;
    let base = repo.merge_base(one, two).ok()?;
    let mut bytes = [0u8; 20];
    bytes.copy_from_slice(base.as_bytes());
    Some(ObjectId { bytes })
}

/// What the search goes on with when the common ancestor of the commits so
/// far and the next commit was looked for and `found` came back.
pub fn next_base(found: Option<ObjectId>) -> (r: Result<ObjectId, MergeBaseError>)
    ensures
        r == match found {
            Some(base) => Ok::<ObjectId, MergeBaseError>(base),
            None => Err::<ObjectId, MergeBaseError>(MergeBaseError::NotFound),
        },
{
    match found {
        Some(base) => Ok(base),
        None => Err(MergeBaseError::NotFound),
    }
}

/// The common ancestor of all of `ids`: that of the first two, then that
/// of it and the third, and so on. At least two commits must be given.
pub fn merge_base_octopussy(repo: &git2::Repository, ids: &Vec<ObjectId>) -> (r: Result<ObjectId, MergeBaseError>)
    ensures
        ids@.len() < 2 <==> r == Err::<ObjectId, MergeBaseError>(MergeBaseError::TooFew),
        r is Err ==> r == Err::<ObjectId, MergeBaseError>(MergeBaseError::TooFew) || r == Err::<
            ObjectId,
            MergeBaseError,
        >(MergeBaseError::NotFound),
{
    if ids.len() < 2 {
        return Err(MergeBaseError::TooFew);
    }
    let mut base = ids[0];
    let mut k: usize = 1;
    while k < ids.len()
        invariant
            1 <= k <= ids.len(),
            ids@.len() >= 2,
        decreases ids.len() - k,
    {
        match next_base(merge_base_of(repo, &base, &ids[k])) {
            Ok(found) => {
                base = found;
            },
            Err(e) => {
                return Err(e);
            },
        }
        k += 1;
    }
    Ok(base)
}

/// Whether `name` is the reference of the workspace, which marks a
/// repository as managed.
pub fn is_workspace_ref(name: &str) -> (r: bool)
    ensures
        r == (name@ == "refs/heads/gitbutler/workspace"@),
{
    let reference = "refs/heads/gitbutler/workspace";
    let same = has_prefix(name, reference) && name.unicode_len() == reference.unicode_len();
    proof {
        if same {
            assert(name@.subrange(0, name@.len() as int) =~= name@);
        }
        if name@ == reference@ {
            assert(name@.subrange(0, reference@.len() as int) =~= name@);
        }
    }
    same
}

/// What a reference name is.
#[derive(Debug, PartialEq, Eq, Clone, Copy, Structural)]
pub enum RefnameKind {
    Remote,
    Local,
    Virtual,
    Other,
}

/// Where a branch lives.
#[derive(Debug, PartialEq, Eq, Clone, Copy, Structural)]
pub enum BranchKind {
    Local,
    Remote,
}

/// Where to look for the branch of a reference name: among the
/// remote-tracking branches for the name of one, among the local branches
/// for any other.
pub fn branch_kind(name: RefnameKind) -> (r: BranchKind)
    ensures
        r == if name == RefnameKind::Remote {
            BranchKind::Remote
        } else {
            BranchKind::Local
        },
{
    match name {
        RefnameKind::Remote => BranchKind::Remote,
        _ => BranchKind::Local,
    }
}

} // verus!
