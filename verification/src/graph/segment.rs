//! Commits, segments and the edges between segments.

use vstd::prelude::*;

use crate::graph::flags::CommitFlags;
use crate::object_id::ObjectId;

verus! {

/// A commit as the graph holds it.
#[derive(Debug, PartialEq, Eq, Clone)]
pub struct Commit {
    pub id: ObjectId,
    pub parent_ids: Vec<ObjectId>,
    /// How the commit was reached.
    pub flags: CommitFlags,
    /// The references that point at the commit, but for the name of its segment.
    pub refs: Vec<String>,
}

/// A branch of a stack, by its reference.
#[derive(Debug, PartialEq, Eq, Clone)]
pub struct WorkspaceStackBranch {
    pub ref_name: String,
}

/// A stack of a workspace: its branches from the top down.
#[derive(Debug, PartialEq, Eq, Clone)]
pub struct WorkspaceStack {
    pub branches: Vec<WorkspaceStackBranch>,
}

/// What is recorded about a workspace.
#[derive(Debug, PartialEq, Eq, Clone)]
pub struct Workspace {
    /// The remote-tracking branch that the workspace is to be integrated with.
    pub target_ref: Option<String>,
    /// The remote to push to.
    pub push_remote: Option<String>,
    pub stacks: Vec<WorkspaceStack>,
}

/// What is recorded about the reference of a segment.
#[derive(Debug, PartialEq, Eq, Clone)]
pub enum SegmentMetadata {
    Branch,
    Workspace(Workspace),
}

/// A run of commits under one name, the tip first.
#[derive(Debug, PartialEq, Eq, Clone)]
pub struct Segment {
    /// The index of the segment in its graph.
    pub id: u32,
    /// The reference that names the segment, if one does.
    pub ref_name: Option<String>,
    pub commits: Vec<Commit>,
    pub metadata: Option<SegmentMetadata>,
    /// The segment of the other side where a branch and its remote-tracking
    /// branch are told apart.
    pub sibling_segment_id: Option<u32>,
}

/// An edge from a commit of one segment to a commit of another. Where a
/// segment has no commits there is no commit to name.
#[derive(Debug, PartialEq, Eq, Clone, Copy)]
pub struct Edge {
    pub src: Option<usize>,
    pub src_id: Option<ObjectId>,
    pub dst: Option<usize>,
    pub dst_id: Option<ObjectId>,
}

impl Segment {
    /// The identifier of the commit at `index`, if there is such a commit.
    pub open spec fn id_at(&self, index: Option<usize>) -> Option<ObjectId> {
        match index {
            Some(i) => if i < self.commits@.len() {
                Some(self.commits@[i as int].id)
            } else {
                None
            },
            None => None,
        }
    }

    /// A segment without commits.
    pub fn new(ref_name: Option<String>) -> (s: Segment)
        ensures
            s.ref_name == ref_name,
            s.commits@.len() == 0,
            s.metadata is None,
            s.sibling_segment_id is None,
            s.id == 0,
    {
        Segment { id: 0, ref_name, commits: Vec::new(), metadata: None, sibling_segment_id: None }
    }

    /// The identifier of the commit at `index`, if there is such a commit.
    pub fn commit_id_by_index(&self, index: Option<usize>) -> (r: Option<ObjectId>)
        ensures
            r == self.id_at(index),
    {
        match index {
            Some(i) => {
                if i < self.commits.len() {
                    Some(self.commits[i].id)
                } else {
                    None
                }
            },
            None => None,
        }
    }

    /// The index of the last commit, if the segment has commits.
    pub fn last_commit_index(&self) -> (r: Option<usize>)
        ensures
            r == if self.commits@.len() > 0 {
                Some((self.commits@.len() - 1) as usize)
            } else {
                None
            },
    {
        if self.commits.len() > 0 {
            Some(self.commits.len() - 1)
        } else {
            None
        }
    }

    /// The index of the commit `id` in the segment.
    pub fn commit_index_of(&self, id: &ObjectId) -> (r: Option<usize>)
        ensures
            match r {
                Some(i) => i < self.commits@.len() && self.commits@[i as int].id == *id && forall|k: int|
                    0 <= k < i ==> (#[trigger] self.commits@[k]).id != *id,
                None => forall|k: int| 0 <= k < self.commits@.len() ==> (#[trigger] self.commits@[k]).id != *id,
            },
    {
        let mut i: usize = 0;
        while i < self.commits.len()
            invariant
                i <= self.commits.len(),
                forall|k: int| 0 <= k < i ==> (#[trigger] self.commits@[k]).id != *id,
            decreases self.commits.len() - i,
        {
            if self.commits[i].id.same(id) {
                return Some(i);
            }
            i += 1;
        }
        None
    }
}

} // verus!
