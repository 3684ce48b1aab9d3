//! Building the graph: a traversal from the tips to their ancestors.
//!
//! The traversal keeps a queue of commits to take. Whoever drives it reads
//! the commit at the front of the queue from the repository and hands it
//! in; the traversal puts the commit into a segment, queues its parents,
//! and says how it went on.

use vstd::prelude::*;

use crate::graph::arena::{commit_at, commits_once, grows, holds_commit, Graph};
use crate::graph::flags::{lemma_flags_order, CommitFlags, Goals, MAX_GOALS};
use crate::graph::limit::Limit;
use crate::graph::queue::{Queue, QueueItem};
use crate::graph::refs::{find_refs, refs_position, RefsAt};

use crate::graph::segment::{Segment, SegmentMetadata, Workspace};

use crate::graph::seen::SeenMap;
use crate::object_id::ObjectId;

verus! {

/// A remote-tracking branch and the commit it points at.
#[derive(Debug, PartialEq, Eq, Clone)]
pub struct RemoteTip {
    pub ref_name: String,
    pub id: ObjectId,
}

/// A commit as it was read from the repository, and the remote-tracking
/// branches of the local branches that point at it.
#[derive(Debug, PartialEq, Eq, Clone)]
pub struct CommitInfo {
    pub id: ObjectId,
    pub parent_ids: Vec<ObjectId>,
    pub remote_tips: Vec<RemoteTip>,
}

/// A local branch and the commit it points at.
#[derive(Debug, PartialEq, Eq, Clone)]
pub struct LocalTip {
    pub ref_name: String,
    pub id: ObjectId,
}

/// The target of a workspace: a remote-tracking branch, the commit it
/// points at, and the local branch that tracks it, if there is one.
#[derive(Debug, PartialEq, Eq, Clone)]
pub struct TargetTip {
    pub ref_name: String,
    pub id: ObjectId,
    pub local: Option<LocalTip>,
}

/// A workspace: its reference, the commit that the reference points at,
/// what is recorded about it, its target where that exists, and the tips
/// of the branches of its stacks that exist.
#[derive(Debug, PartialEq, Eq, Clone)]
pub struct WorkspaceTip {
    pub tip: ObjectId,
    pub ref_name: String,
    pub metadata: Workspace,
    pub target: Option<TargetTip>,
    pub branch_tips: Vec<ObjectId>,
}

/// What a traversal starts from: a commit, the reference that points at
/// it, if one is known, the workspaces, and the references by the commit
/// they point at.
#[derive(Debug, PartialEq, Eq, Clone)]
pub struct Seed {
    pub tip: ObjectId,
    pub ref_name: Option<String>,
    pub workspaces: Vec<WorkspaceTip>,
    pub refs_by_id: Vec<RefsAt>,
}

/// Where `HEAD` points.
#[derive(Debug, PartialEq, Eq, Clone)]
pub enum Head {
    /// At a branch without commits.
    Unborn { ref_name: String },
    /// At a commit.
    Detached { id: ObjectId },
    /// At a reference, which points at a commit.
    Symbolic { ref_name: String, id: ObjectId },
}

/// Why a traversal cannot start.
#[derive(Debug, PartialEq, Eq, Clone, Copy, Structural)]
pub enum StartError {
    /// The traversal was to start at a remote-tracking branch.
    RemoteStart,
    /// The graph cannot hold the segments of the tips.
    Full,
    /// There are more goals than flags for them.
    TooManyGoals,
}

impl StartError {
    /// The message of the error.
    pub fn message(&self) -> (s: &'static str)
        ensures
            s@ == match self {
                StartError::RemoteStart => "Cannot currently handle remotes as start position"@,
                StartError::Full => "The graph cannot hold the segments of the tips"@,
                StartError::TooManyGoals => "The tips have more goals than there are flags for them"@,
            },
    {
        match self {
            StartError::RemoteStart => "Cannot currently handle remotes as start position",
            StartError::Full => "The graph cannot hold the segments of the tips",
            StartError::TooManyGoals => "The tips have more goals than there are flags for them",
        }
    }
}

/// What reading `HEAD` leads to.
pub enum Begin {
    /// A graph of one segment without commits, named after the branch.
    Unborn(Graph),
    /// A traversal.
    Walk(Traversal),
}

/// Whether no segment has a commit.
pub open spec fn all_empty(segments: Map<int, Segment>) -> bool {
    forall|s: int| #[trigger] segments.contains_key(s) ==> segments[s].commits@.len() == 0
}

/// The state of a traversal.
pub struct Traversal {
    /// The graph built so far.
    pub graph: Graph,
    /// The commits to take.
    pub next: Queue,
    /// The commits that lanes look for.
    pub goals: Goals,
    /// The references by the commit they point at, for the commits not taken yet.
    pub refs_by_id: Vec<RefsAt>,
    /// The limit of a lane that starts at a tip.
    pub max_limit: Limit,
    /// The commit that the traversal started from.
    pub tip: ObjectId,
    /// Whether the traversal started from a detached head.
    pub detached: bool,
    /// The segment that each commit was put into when it was taken. A
    /// segment that was split since may hold the commit no more.
    pub seen: SeenMap,
}

/// Whether each item goes to a segment that there is.
pub open spec fn items_in(items: Seq<QueueItem>, segments: Map<int, Segment>) -> bool {
    forall|k: int| 0 <= k < items.len() ==> segments.contains_key((#[trigger] items[k]).instruction.segment() as int)
}

impl Traversal {
    /// Whether the graph is well formed, no commit stands in it twice,
    /// and each queued commit goes to a segment that there is.
    pub open spec fn wf(&self) -> bool {
        &&& self.graph.wf()
        &&& commits_once(self.graph.segments())
        &&& self.goals.ids@.len() <= MAX_GOALS
        &&& items_in(self.next.items@, self.graph.segments())
    }

    /// The commit to read next, if any is queued.
    pub fn next_commit(&self) -> (r: Option<ObjectId>)
        ensures
            r == if self.next.items@.len() > 0 {
                Some(self.next.items@[0].id)
            } else {
                None
            },
    {
        if self.next.items.len() > 0 {
            Some(self.next.items[0].id)
        } else {
            None
        }
    }

    /// The references that point at the commit `id`, by the index that the
    /// traversal was started with.
    pub fn refs_at(&self, id: &ObjectId) -> (r: Option<&Vec<String>>)
        ensures
            match refs_position(self.refs_by_id@, *id) {
                Some(k) => r is Some && *r->0 == self.refs_by_id@[k].names,
                None => r is None,
            },
    {
        match find_refs(&self.refs_by_id, id) {
            Some(k) => Some(&self.refs_by_id[k].names),
            None => None,
        }
    }

    /// Takes the references of the commit `id` out of the index: a commit
    /// is named once.
    pub fn take_refs(&mut self, id: &ObjectId) -> (names: Vec<String>)
        ensures
            final(self).graph == old(self).graph,
            final(self).next == old(self).next,
            final(self).goals == old(self).goals,
            final(self).max_limit == old(self).max_limit,
            final(self).tip == old(self).tip,
            final(self).detached == old(self).detached,
            final(self).seen == old(self).seen,
            match refs_position(old(self).refs_by_id@, *id) {
                Some(k) => names == old(self).refs_by_id@[k].names && final(self).refs_by_id@ == old(self).refs_by_id@.remove(k),
                None => names@.len() == 0 && final(self).refs_by_id@ == old(self).refs_by_id@,
            },
    {
        match find_refs(&self.refs_by_id, id) {
            Some(k) => self.refs_by_id.remove(k).names,
            None => Vec::new(),
        }
    }
}

/// How a step of the traversal went on.
#[derive(Debug, PartialEq, Eq, Clone, Copy, Structural)]
pub enum Advance {
    /// No commit is queued: the traversal is over.
    Idle,
    /// The commit handed in is not the one at the front of the queue.
    Unexpected,
    /// The commit was put at the place `commit` of the segment `segment`.
    Taken { segment: u32, commit: usize },
    /// The commit was in the graph; it now starts the segment `segment`,
    /// which was connected, and flags were added to it.
    Met { segment: u32 },
    /// The queue is exhausted: the traversal is over, and the graph is partial.
    HardLimit,
    /// The graph cannot grow any more.
    Full,
    /// The branches of the commit have more goals than there are flags
    /// left for them: the traversal is over.
    TooManyGoals,
}

/// Whether `after` holds the segments of `before` and one more at
/// `index`: a segment without commits, with the name, the metadata and
/// the sibling given.
pub open spec fn with_segment(
    before: Map<int, Segment>,
    after: Map<int, Segment>,
    index: u32,
    name: Option<String>,
    metadata: Option<SegmentMetadata>,
    sibling: Option<u32>,
) -> bool {
    &&& !before.contains_key(index as int)
    &&& after.dom() == before.dom().insert(index as int)
    &&& forall|k: int| #[trigger] before.contains_key(k) ==> after[k] == before[k]
    &&& after[index as int].id == index
    &&& after[index as int].commits@.len() == 0
    &&& after[index as int].ref_name == name
    &&& after[index as int].metadata == metadata
    &&& after[index as int].sibling_segment_id == sibling
}

/// A segment without commits adds no commit to a graph.
pub proof fn lemma_empty_segment(before: Map<int, Segment>, after: Map<int, Segment>, index: int)
    requires
        !before.contains_key(index),
        after.contains_key(index),
        after[index].commits@.len() == 0,
        after.dom() == before.dom().insert(index),
        forall|k: int| #[trigger] before.contains_key(k) ==> after[k] == before[k],
    ensures
        grows(before, after),
        commits_once(before) ==> commits_once(after),
        forall|id: ObjectId| holds_commit(after, id) <==> holds_commit(before, id),
{
    assert forall|s: int, c: int| #[trigger] commit_at(before, s, c) implies exists|s2: int, c2: int| #[trigger]
        commit_at(after, s2, c2) && after[s2].commits@[c2].id == before[s].commits@[c].id && after[s2].commits@[c2].flags.has(
            before[s].commits@[c].flags,
        ) by {
        assert(commit_at(after, s, c));
        lemma_flags_order(before[s].commits@[c].flags, before[s].commits@[c].flags, before[s].commits@[c].flags);
    }
    assert forall|s: int, c: int| #[trigger] commit_at(after, s, c) implies commit_at(before, s, c) && before[s]
        == after[s] by {
        assert(s != index);
        assert(before.contains_key(s));
    }
    if commits_once(before) {
        assert forall|s1: int, c1: int, s2: int, c2: int|
            #[trigger] commit_at(after, s1, c1) && #[trigger] commit_at(after, s2, c2)
                && after[s1].commits@[c1].id == after[s2].commits@[c2].id implies s1 == s2 && c1 == c2 by {
            assert(commit_at(before, s1, c1));
            assert(commit_at(before, s2, c2));
        }
    }
    assert forall|id: ObjectId| holds_commit(after, id) <==> holds_commit(before, id) by {
        if holds_commit(after, id) {
            let (s, c) = choose|s: int, c: int| #[trigger] commit_at(after, s, c) && after[s].commits@[c].id == id;
            assert(commit_at(before, s, c));
        }
        if holds_commit(before, id) {
            let (s, c) = choose|s: int, c: int| #[trigger] commit_at(before, s, c) && before[s].commits@[c].id == id;
            assert(commit_at(after, s, c));
        }
    }
}

/// Items that went to segments of a graph go to segments of a graph that
/// has all those segments.
pub proof fn lemma_items_in(items: Seq<QueueItem>, before: Map<int, Segment>, after: Map<int, Segment>)
    requires
        items_in(items, before),
        forall|k: int| before.contains_key(k) ==> after.contains_key(k),
    ensures
        items_in(items, after),
{
    assert forall|k: int| 0 <= k < items.len() implies after.contains_key(
        (#[trigger] items[k]).instruction.segment() as int,
    ) by {
        assert(before.contains_key(items[k].instruction.segment() as int));
    }
}

/// Whether the graph holds the commit `id` with all the flags `flags`.
pub open spec fn holds_flagged(segments: Map<int, Segment>, id: ObjectId, flags: CommitFlags) -> bool {
    exists|s: int, c: int| #[trigger]
        commit_at(segments, s, c) && segments[s].commits@[c].id == id && segments[s].commits@[c].flags.has(flags)
}

/// A commit keeps its flags while the graph grows: where a graph holds a
/// commit with some flags, every graph that it grows into holds the
/// commit with those flags.
pub proof fn lemma_flags_stay(before: Map<int, Segment>, after: Map<int, Segment>, id: ObjectId, flags: CommitFlags)
    requires
        grows(before, after),
        holds_flagged(before, id, flags),
    ensures
        holds_flagged(after, id, flags),
{
    let (s, c) = choose|s: int, c: int| #[trigger]
        commit_at(before, s, c) && before[s].commits@[c].id == id && before[s].commits@[c].flags.has(flags);
    assert(commit_at(before, s, c));
    let (s2, c2) = choose|s2: int, c2: int| #[trigger]
        commit_at(after, s2, c2) && after[s2].commits@[c2].id == before[s].commits@[c].id && after[s2].commits@[c2].flags.has(
            before[s].commits@[c].flags,
        );
    lemma_flags_order(after[s2].commits@[c2].flags, before[s].commits@[c].flags, flags);
    assert(commit_at(after, s2, c2));
}

/// The names of the references that point at the commit `id`.
pub open spec fn names_of(refs: Seq<RefsAt>, id: ObjectId) -> Seq<String> {
    match refs_position(refs, id) {
        Some(k) => refs[k].names@,
        None => Seq::empty(),
    }
}

/// Segments without commits hold no commit.
pub proof fn lemma_all_empty(segments: Map<int, Segment>)
    requires
        all_empty(segments),
    ensures
        commits_once(segments),
        forall|id: ObjectId| !holds_commit(segments, id),
{
    assert forall|id: ObjectId| !holds_commit(segments, id) by {
        if holds_commit(segments, id) {
            let (s, c) = choose|s: int, c: int| #[trigger] commit_at(segments, s, c) && segments[s].commits@[c].id == id;
            assert(segments.contains_key(s));
        }
    }
    assert forall|s1: int, c1: int, s2: int, c2: int|
        #[trigger] commit_at(segments, s1, c1) && #[trigger] commit_at(segments, s2, c2)
            && segments[s1].commits@[c1].id == segments[s2].commits@[c2].id implies s1 == s2 && c1 == c2 by {
        assert(segments.contains_key(s1));
    }
}

/// A copy of the name.
pub fn clone_name(name: &Option<String>) -> (r: Option<String>)
    ensures
        r == *name,
{
    match name {
        Some(n) => Some(n.clone()),
        None => None,
    }
}

} // verus!
