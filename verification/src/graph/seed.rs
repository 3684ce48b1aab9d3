//! Where a traversal starts: the commit it is asked for, the tips of the
//! workspaces with their targets, the extra target, and the tips of the
//! branches of the stacks.

use vstd::prelude::*;

use crate::graph::arena::{grew_by, lemma_keeps_wf, same_but, Graph};
use crate::graph::cover::{covers, lemma_fresh_covers};
use crate::graph::descent::{flags_descend, lemma_descend_empty};
use crate::graph::flags::{
    asked, goal_flag, goals_grew_by, goals_with, CommitFlags, Goals, GoalsView, IN_WORKSPACE, INTEGRATED, MAX_GOALS,
    NOT_IN_REMOTE,
};
use crate::graph::init::{
    all_empty, clone_name, items_in, lemma_all_empty, lemma_items_in, names_of, with_segment, Begin, Head, LocalTip,
    Seed, StartError, TargetTip, Traversal, WorkspaceTip,
};
use crate::graph::limit::Limit;
use crate::graph::options::Options;
use crate::graph::queue::{awaits, Instruction, Queue, QueueItem};
use crate::graph::refs::{branch_segment, find_refs, is_remote_branch, is_remote_name, natural_name, RefsAt};
use crate::graph::segment::{Segment, SegmentMetadata};

use crate::graph::seen::{seen_ids, seen_new};
use crate::object_id::ObjectId;

verus! {

/// The item for a tip that goes to the segment `index`.
pub open spec fn tip_item(id: ObjectId, flags: CommitFlags, limit: Limit, index: u32) -> QueueItem {
    QueueItem { id, flags, instruction: Instruction::CollectCommit { into: index }, limit }
}

/// Whether `after` has what `before` has but for the segments, the queue,
/// the goals, the entrypoint and the extra target.
pub open spec fn same_seed(before: Traversal, after: Traversal) -> bool {
    &&& after.refs_by_id == before.refs_by_id
    &&& after.max_limit == before.max_limit
    &&& after.tip == before.tip
    &&& after.detached == before.detached
    &&& after.seen == before.seen
    &&& after.next.max == before.next.max
    &&& after.graph.edges() == before.graph.edges()
    &&& after.graph.entrypoint_ref == before.graph.entrypoint_ref
    &&& after.graph.hard_limit_hit == before.graph.hard_limit_hit
    &&& after.graph.options == before.graph.options
}

/// Whether `after` has the entrypoint and the extra target of `before`.
pub open spec fn same_entry(before: Traversal, after: Traversal) -> bool {
    after.graph.entrypoint == before.graph.entrypoint && after.graph.extra_target == before.graph.extra_target
}

/// Whether `after` is `before` with a tip seeded: the commit `id` is
/// queued, at the front or at the back, with the flags `flags` and the
/// limit `limit`, for the new segment `index`, which has no commits and
/// has the name, the metadata and the sibling given. The goals, the
/// entrypoint and the extra target are not spoken of.
pub open spec fn tip_seeded(
    before: Traversal,
    after: Traversal,
    index: u32,
    name: Option<String>,
    metadata: Option<SegmentMetadata>,
    sibling: Option<u32>,
    id: ObjectId,
    flags: CommitFlags,
    limit: Limit,
    front: bool,
) -> bool {
    &&& same_seed(before, after)
    &&& with_segment(before.graph.segments(), after.graph.segments(), index, name, metadata, sibling)
    &&& after.next.count == crate::graph::queue::counted(before.next.count)
    &&& after.next.items@ == if front {
        seq![tip_item(id, flags, limit, index)] + before.next.items@
    } else {
        before.next.items@.push(tip_item(id, flags, limit, index))
    }
}

/// Whether `after` is `before` with the goals `goal` added to the limit
/// of each queued item for the commit `id`.
pub open spec fn goal_added(before: Traversal, after: Traversal, id: ObjectId, goal: CommitFlags) -> bool {
    &&& same_seed(before, after)
    &&& same_entry(before, after)
    &&& after.goals@ == before.goals@
    &&& after.graph.segments() == before.graph.segments()
    &&& after.next.count == before.next.count
    &&& after.next.items@ == Queue::with_goal(before.next.items@, id, goal)
}

/// Whether `after` is `before` with the segment `sibling` as the sibling
/// of the segment `index`.
pub open spec fn sibling_set(before: Traversal, after: Traversal, index: u32, sibling: u32) -> bool {
    let segs = before.graph.segments();
    let now = after.graph.segments();
    &&& same_seed(before, after)
    &&& same_entry(before, after)
    &&& after.goals@ == before.goals@
    &&& after.next == before.next
    &&& segs.contains_key(index as int)
    &&& same_but(segs, now, index as int)
    &&& now[index as int].id == segs[index as int].id
    &&& now[index as int].ref_name == segs[index as int].ref_name
    &&& now[index as int].metadata == segs[index as int].metadata
    &&& now[index as int].commits == segs[index as int].commits
    &&& now[index as int].sibling_segment_id == Some(sibling)
}

/// The flags of the commit that a traversal starts from: it is not in a
/// remote, and it is the first goal.
pub open spec fn first_tip_flags() -> CommitFlags {
    CommitFlags { bits: NOT_IN_REMOTE | CommitFlags::goal_bit(0) }
}

/// Whether `name` is the reference of one of the workspaces.
pub open spec fn is_workspace_name(workspaces: Seq<WorkspaceTip>, name: Option<String>) -> bool {
    name is Some && exists|k: int| 0 <= k < workspaces.len() && (#[trigger] workspaces[k]).ref_name@ == name->0@
}

/// Whether `t` is a traversal for `seed` and `options` in which nothing
/// is seeded yet: there are no segments, nothing is queued, and the
/// commit to start from is the only goal.
pub open spec fn is_blank(seed: Seed, options: Options, t: Traversal) -> bool {
    &&& t.graph.options == options
    &&& t.graph.entrypoint_ref == seed.ref_name
    &&& t.graph.entrypoint is None
    &&& t.graph.extra_target is None
    &&& !t.graph.hard_limit_hit
    &&& t.graph.segments().dom() == Set::<int>::empty()
    &&& t.graph.edges().dom() == Set::<int>::empty()
    &&& t.refs_by_id == seed.refs_by_id
    &&& t.tip == seed.tip
    &&& !t.detached
    &&& t.max_limit == (Limit { allowance: options.commits_limit_hint, goals: CommitFlags { bits: 0 } })
    &&& t.next.max == options.hard_limit
    &&& t.next.count == 0
    &&& t.next.items@.len() == 0
    &&& t.goals@ == (GoalsView { ids: seq![seed.tip], missed: false })
    &&& seen_ids(t.seen).dom() == Set::<Seq<u8>>::empty()
}

/// Whether `after` is `blank` with the commit to start from seeded.
///
/// Unless its reference is that of a workspace, the commit is queued for
/// a segment of its own, which is named after the only local branch that
/// points at the commit and becomes the entrypoint.
pub open spec fn headed(seed: Seed, blank: Traversal, after: Traversal) -> bool {
    if is_workspace_name(seed.workspaces@, seed.ref_name) {
        after == blank
    } else {
        exists|index: u32| #[trigger]
            tip_seeded(
                blank,
                after,
                index,
                natural_name(names_of(seed.refs_by_id@, seed.tip)),
                None,
                None,
                seed.tip,
                first_tip_flags(),
                blank.max_limit,
                false,
            ) && after.goals@ == blank.goals@ && after.graph.entrypoint == Some((index, None::<usize>))
                && after.graph.extra_target == blank.graph.extra_target
    }
}

/// Whether `after` is what comes of `before` by way of `b`, `c` and `d`
/// when the target `target` of a workspace is seeded together with its
/// local branch.
///
/// The local branch is queued in front, for the segment `index`, which is
/// named after the only local branch that points at its tip; it is not in
/// a remote and has its tip as a goal. That goal is added to the lanes
/// that start at the commit the traversal started from. Then the target
/// is queued in front, as integrated, for the segment `target_index`,
/// which bears its name. Both lanes have no allowance and look for the
/// commit that the traversal started from; the lane of the target looks
/// for the tip of the local branch too. Where the segment of the local
/// branch bears the name of that branch, the two segments are siblings.
pub open spec fn local_target_seeded(
    before: Traversal,
    b: Traversal,
    c: Traversal,
    d: Traversal,
    after: Traversal,
    index: u32,
    target_index: u32,
    target: TargetTip,
) -> bool {
    let tip = before.tip;
    let local = target.local->0;
    let ids = goals_with(before.goals.ids@, tip);
    let lane = Limit {
        allowance: Some(0usize),
        goals: before.max_limit.goals.joined(goal_flag(before.goals.ids@, tip)),
    };
    let names = names_of(before.refs_by_id@, local.id);
    let named_so = natural_name(names) is Some && natural_name(names)->0@ == local.ref_name@;
    let goal = goal_flag(ids, local.id);
    &&& tip_seeded(
        before,
        b,
        index,
        natural_name(names),
        None,
        None,
        local.id,
        CommitFlags { bits: NOT_IN_REMOTE }.joined(goal),
        lane,
        true,
    )
    &&& b.goals@ == asked(asked(before.goals@, tip), local.id)
    &&& same_entry(before, b)
    &&& goal_added(b, c, tip, goal)
    &&& tip_seeded(
        c,
        d,
        target_index,
        Some(target.ref_name),
        None,
        if named_so {
            Some(index)
        } else {
            None
        },
        target.id,
        CommitFlags { bits: INTEGRATED },
        Limit { allowance: Some(0usize), goals: lane.goals.joined(goal) },
        true,
    )
    &&& d.goals@ == c.goals@
    &&& same_entry(c, d)
    &&& if named_so {
        sibling_set(d, after, index, target_index)
    } else {
        after == d
    }
}

/// Whether `after` is `before` with the target `target` of a workspace
/// seeded.
///
/// The commit that the traversal started from is asked for as a goal.
/// Where the target has a local branch whose tip is not queued, the two
/// are seeded together: see [`local_target_seeded`]. Else the target
/// alone is queued in front, as integrated, for a segment that bears its
/// name, with a lane without allowance that looks for the commit that the
/// traversal started from.
pub open spec fn target_seeded(before: Traversal, after: Traversal, target: TargetTip) -> bool {
    if target.local is Some && !awaits(before.next.items@, target.local->0.id) {
        exists|b: Traversal, c: Traversal, d: Traversal, index: u32, target_index: u32| #[trigger]
            local_target_seeded(before, b, c, d, after, index, target_index, target)
    } else {
        exists|index: u32| #[trigger]
            tip_seeded(
                before,
                after,
                index,
                Some(target.ref_name),
                None,
                None,
                target.id,
                CommitFlags { bits: INTEGRATED },
                Limit {
                    allowance: Some(0usize),
                    goals: before.max_limit.goals.joined(goal_flag(before.goals.ids@, before.tip)).joined(
                        CommitFlags { bits: 0 },
                    ),
                },
                true,
            ) && after.goals@ == asked(before.goals@, before.tip) && same_entry(before, after)
    }
}

/// Whether `after` is what comes of `before` by way of `a` when the
/// workspace `workspace` is seeded, and the commit that the traversal
/// started from has the flags `tip_flags`.
///
/// The tip of the workspace is queued in front for the segment `index`,
/// which bears the reference and the metadata of the workspace; it is in
/// the workspace and not in a remote. Where the traversal started from
/// the reference of the workspace, the tip has the flags `tip_flags` too,
/// and its lane has the limit of a lane that starts at a tip; else its
/// lane looks for the commit that the traversal started from. The segment
/// becomes the entrypoint where there is none and the traversal started
/// from the reference of the workspace. Then the target of the workspace
/// is seeded, if it has one: see [`target_seeded`].
pub open spec fn workspace_seeded_by(
    before: Traversal,
    a: Traversal,
    after: Traversal,
    index: u32,
    workspace: WorkspaceTip,
    tip_flags: CommitFlags,
) -> bool {
    let start_ref = before.graph.entrypoint_ref;
    let is_entry = start_ref is Some && start_ref->0@ == workspace.ref_name@;
    let max = before.max_limit;
    &&& tip_seeded(
        before,
        a,
        index,
        Some(workspace.ref_name),
        Some(SegmentMetadata::Workspace(workspace.metadata)),
        None,
        workspace.tip,
        CommitFlags { bits: IN_WORKSPACE }.joined(CommitFlags { bits: NOT_IN_REMOTE }).joined(
            if is_entry {
                tip_flags
            } else {
                CommitFlags { bits: 0 }
            },
        ),
        if is_entry {
            max
        } else {
            Limit { allowance: max.allowance, goals: max.goals.joined(goal_flag(before.goals.ids@, before.tip)) }
        },
        true,
    )
    &&& a.goals@ == if is_entry {
        before.goals@
    } else {
        asked(before.goals@, before.tip)
    }
    &&& a.graph.entrypoint == if before.graph.entrypoint is None && is_entry {
        Some((index, None::<usize>))
    } else {
        before.graph.entrypoint
    }
    &&& a.graph.extra_target == before.graph.extra_target
    &&& match workspace.target {
        Some(target) => target_seeded(a, after, target),
        None => after == a,
    }
}

/// Whether `after` is `before` with the workspace `workspace` seeded: see
/// [`workspace_seeded_by`].
pub open spec fn workspace_seeded(
    before: Traversal,
    after: Traversal,
    workspace: WorkspaceTip,
    tip_flags: CommitFlags,
) -> bool {
    exists|a: Traversal, index: u32| #[trigger] workspace_seeded_by(before, a, after, index, workspace, tip_flags)
}

/// Whether `after` is `before` with the workspaces `workspaces` seeded
/// one after the other: see [`workspace_seeded`].
pub open spec fn workspaces_seeded(
    before: Traversal,
    after: Traversal,
    workspaces: Seq<WorkspaceTip>,
    tip_flags: CommitFlags,
) -> bool
    decreases workspaces.len(),
{
    if workspaces.len() == 0 {
        after == before
    } else {
        exists|mid: Traversal|
            workspaces_seeded(before, mid, workspaces.drop_last(), tip_flags) && #[trigger] workspace_seeded(
                mid,
                after,
                workspaces.last(),
                tip_flags,
            )
    }
}

/// Whether the segment `index` is that of the first queued item for the commit `id`.
pub open spec fn is_segment_of(items: Seq<QueueItem>, id: ObjectId, index: u32) -> bool {
    exists|k: int|
        0 <= k < items.len() && (#[trigger] items[k]).id == id && index == items[k].instruction.segment() && forall|m: int|
            0 <= m < k ==> (#[trigger] items[m]).id != id
}

/// Whether `after` is `before` with only the extra target changed, to `index`.
pub open spec fn extra_target_set(before: Traversal, after: Traversal, index: u32) -> bool {
    &&& same_seed(before, after)
    &&& after.goals@ == before.goals@
    &&& after.next == before.next
    &&& after.graph.segments() == before.graph.segments()
    &&& after.graph.entrypoint == before.graph.entrypoint
    &&& after.graph.extra_target == Some(index)
}

/// Whether `after` is `before` with the extra target `extra` seeded.
///
/// Where the commit is queued, the segment of the first item for it
/// becomes the extra target. Else the commit is queued in front, as
/// integrated, for a segment of its own, which is named after the only
/// local branch that points at the commit and becomes the extra target;
/// its lane has no allowance and looks for the commit that the traversal
/// started from. Without an extra target nothing changes.
pub open spec fn extra_seeded(before: Traversal, after: Traversal, extra: Option<ObjectId>) -> bool {
    match extra {
        None => after == before,
        Some(id) => if awaits(before.next.items@, id) {
            exists|index: u32| #[trigger]
                is_segment_of(before.next.items@, id, index) && extra_target_set(before, after, index)
        } else {
            exists|b: Traversal, index: u32| #[trigger]
                tip_seeded(
                    before,
                    b,
                    index,
                    natural_name(names_of(before.refs_by_id@, id)),
                    None,
                    None,
                    id,
                    CommitFlags { bits: INTEGRATED },
                    Limit {
                        allowance: Some(0usize),
                        goals: before.max_limit.goals.joined(goal_flag(before.goals.ids@, before.tip)),
                    },
                    true,
                ) && b.goals@ == asked(before.goals@, before.tip) && same_entry(before, b)
                    && extra_target_set(b, after, index)
        },
    }
}

/// Whether `after` is `before` with the tip `id` of a branch of a stack
/// seeded: unless the commit is queued, it is queued at the back for a
/// segment of its own, which is named after the only local branch that
/// points at the commit; it is not in a remote, and its lane has the
/// limit of a lane that starts at a tip.
pub open spec fn branch_tip_seeded(before: Traversal, after: Traversal, id: ObjectId) -> bool {
    if awaits(before.next.items@, id) {
        after == before
    } else {
        exists|index: u32| #[trigger]
            tip_seeded(
                before,
                after,
                index,
                natural_name(names_of(before.refs_by_id@, id)),
                None,
                None,
                id,
                CommitFlags { bits: NOT_IN_REMOTE },
                before.max_limit,
                false,
            ) && after.goals@ == before.goals@ && same_entry(before, after)
    }
}

/// Whether `after` is `before` with the tips `tips` of the branches of the
/// stacks seeded one after the other: see [`branch_tip_seeded`].
pub open spec fn branch_tips_seeded(before: Traversal, after: Traversal, tips: Seq<ObjectId>) -> bool
    decreases tips.len(),
{
    if tips.len() == 0 {
        after == before
    } else {
        exists|mid: Traversal|
            branch_tips_seeded(before, mid, tips.drop_last()) && #[trigger] branch_tip_seeded(mid, after, tips.last())
    }
}

/// The tips of the branches of the stacks of the workspaces, in their order.
pub open spec fn stack_tips_of(workspaces: Seq<WorkspaceTip>) -> Seq<ObjectId>
    decreases workspaces.len(),
{
    if workspaces.len() == 0 {
        Seq::empty()
    } else {
        stack_tips_of(workspaces.drop_last()) + workspaces.last().branch_tips@
    }
}

/// How many segments a traversal that starts from `seed` needs at most:
/// one for the commit to start from, three for each workspace, one for
/// the extra target, and one for each tip of a branch of a stack.
pub open spec fn segments_needed(seed: Seed) -> nat {
    2 + 3 * seed.workspaces@.len() + stack_tips_of(seed.workspaces@).len()
}

/// How many goals a traversal that starts from `seed` asks for at most:
/// the commit to start from, and three for each workspace.
pub open spec fn goals_needed(seed: Seed) -> nat {
    2 + 3 * seed.workspaces@.len()
}

/// Whether `t` is the traversal that starts from `seed` with `options`,
/// by way of `blank`, `headed`, `with_workspaces` and `with_extra`.
///
/// First the commit to start from is seeded: see [`headed`]. Then come
/// the workspaces, each with its target: see [`workspaces_seeded`]. Then
/// comes the extra target of the options: see [`extra_seeded`]. Last come
/// the tips of the branches of the stacks: see [`branch_tips_seeded`].
pub open spec fn started_by(
    seed: Seed,
    options: Options,
    blank: Traversal,
    head: Traversal,
    with_workspaces: Traversal,
    with_extra: Traversal,
    t: Traversal,
) -> bool {
    &&& is_blank(seed, options, blank)
    &&& headed(seed, blank, head)
    &&& workspaces_seeded(head, with_workspaces, seed.workspaces@, first_tip_flags())
    &&& extra_seeded(with_workspaces, with_extra, options.extra_target_commit_id)
    &&& branch_tips_seeded(with_extra, t, stack_tips_of(seed.workspaces@))
}

/// Whether `t` is the traversal that starts from `seed` with `options`:
/// see [`started_by`].
pub open spec fn started(seed: Seed, options: Options, t: Traversal) -> bool {
    exists|blank: Traversal, head: Traversal, with_workspaces: Traversal, with_extra: Traversal| #[trigger]
        started_by(seed, options, blank, head, with_workspaces, with_extra, t)
}

impl Traversal {
    /// Whether the traversal is as it is before the first commit is taken.
    pub open spec fn is_fresh(&self) -> bool {
        &&& self.graph.wf()
        &&& all_empty(self.graph.segments())
        &&& self.goals.ids@.len() <= MAX_GOALS
        &&& items_in(self.next.items@, self.graph.segments())
    }

    /// Adds the segment `segment` for the tip `id` and queues the tip, at
    /// the front or at the back. Returns the index of the segment; `None`,
    /// and nothing changes, where the graph is full, which it is not while
    /// it has room for one more segment.
    pub fn seed_tip(&mut self, segment: Segment, id: ObjectId, flags: CommitFlags, limit: Limit, front: bool) -> (r:
        Option<u32>)
        requires
            old(self).is_fresh(),
            segment.commits@.len() == 0,
        ensures
            final(self).is_fresh(),
            final(self).goals == old(self).goals,
            same_seed(*old(self), *final(self)),
            same_entry(*old(self), *final(self)),
            match r {
                Some(index) => tip_seeded(
                    *old(self),
                    *final(self),
                    index,
                    segment.ref_name,
                    segment.metadata,
                    segment.sibling_segment_id,
                    id,
                    flags,
                    limit,
                    front,
                ),
                None => final(self).graph.segments() == old(self).graph.segments() && final(self).next == old(self).next,
            },
            old(self).graph.has_room(1) ==> r is Some,
            grew_by(old(self).graph, final(self).graph, 1),
    {
        let index = match self.graph.insert_segment(segment) {
            Some(index) => index,
            None => {
                return None;
            },
        };
        let item = QueueItem { id, flags, instruction: Instruction::CollectCommit { into: index }, limit };
        let ghost queued = self.next.items@;
        if front {
            self.next.push_front_exhausted(item);
        } else {
            self.next.push_back_exhausted(item);
        }
        proof {
            assert forall|k: int| 0 <= k < self.next.items@.len() implies self.graph.segments().contains_key(
                (#[trigger] self.next.items@[k]).instruction.segment() as int,
            ) by {
                if front {
                    if k > 0 {
                        assert(self.next.items@[k] == queued[k - 1]);
                        assert(old(self).graph.segments().contains_key(queued[k - 1].instruction.segment() as int));
                    }
                } else {
                    if k < queued.len() {
                        assert(self.next.items@[k] == queued[k]);
                        assert(old(self).graph.segments().contains_key(queued[k].instruction.segment() as int));
                    }
                }
            }
        }
        Some(index)
    }

    /// The names of the references that point at the commit `id`.
    pub fn names_at(&self, id: &ObjectId) -> (names: Vec<String>)
        ensures
            names@ == names_of(self.refs_by_id@, *id),
    {
        let mut names: Vec<String> = Vec::new();
        match find_refs(&self.refs_by_id, id) {
            Some(k) => {
                let found = &self.refs_by_id[k].names;
                let mut m: usize = 0;
                while m < found.len()
                    invariant
                        m <= found.len(),
                        names@.len() == m,
                        forall|j: int| 0 <= j < m ==> (#[trigger] names@[j]) == found@[j],
                    decreases found.len() - m,
                {
                    names.push(found[m].clone());
                    m += 1;
                }
                assert(names@ =~= found@);
            },
            None => {
                assert(names@ =~= Seq::<String>::empty());
            },
        }
        names
    }

    /// Seeds the target `target` of a workspace, together with its local
    /// branch where it has one whose tip is not queued. Tells whether
    /// this was done; it is not where the graph is full, which it is not
    /// while it has room for two more segments.
    pub fn seed_target(&mut self, target: TargetTip) -> (r: bool)
        requires
            old(self).is_fresh(),
        ensures
            final(self).is_fresh(),
            same_seed(*old(self), *final(self)),
            same_entry(*old(self), *final(self)),
            r ==> target_seeded(*old(self), *final(self), target),
            old(self).graph.has_room(2) ==> r,
            grew_by(old(self).graph, final(self).graph, 2),
            goals_grew_by(old(self).goals@, final(self).goals@, 2),
    {
        let TargetTip { ref_name: target_ref, id: target_id, local } = target;
        let tip = self.tip;
        let lane = self.max_limit.with_indirect_goal(tip, &mut self.goals).without_allowance();
        let mut local_goal = CommitFlags::empty();
        let mut local_index: Option<u32> = None;
        let mut seeded: Option<u32> = None;
        let ghost mut b = *self;
        let ghost mut c = *self;
        match local {
            Some(LocalTip { ref_name: local_ref, id: local_id }) => {
                if !self.next.is_queued(&local_id) {
                    let names = self.names_at(&local_id);
                    let segment = branch_segment(&names);
                    let named_so = match &segment.ref_name {
                        Some(name) => *name == local_ref,
                        None => false,
                    };
                    local_goal = self.goals.flag_or_none(local_id);
                    let index = match self.seed_tip(
                        segment,
                        local_id,
                        CommitFlags::not_in_remote().union(local_goal),
                        lane,
                        true,
                    ) {
                        Some(index) => index,
                        None => {
                            return false;
                        },
                    };
                    proof {
                        b = *self;
                    }
                    let ghost queued = self.next.items@;
                    self.next.add_goal_to(&tip, local_goal);
                    proof {
                        assert forall|k: int| 0 <= k < self.next.items@.len() implies self.graph.segments().contains_key(
                            (#[trigger] self.next.items@[k]).instruction.segment() as int,
                        ) by {
                            assert(self.next.items@[k].instruction == queued[k].instruction);
                        }
                        c = *self;
                    }
                    seeded = Some(index);
                    if named_so {
                        local_index = Some(index);
                    }
                }
            },
            None => {},
        }
        let mut target_segment = Segment::new(Some(target_ref));
        target_segment.sibling_segment_id = local_index;
        let target_index = match self.seed_tip(
            target_segment,
            target_id,
            CommitFlags::integrated(),
            lane.additional_goal(local_goal),
            true,
        ) {
            Some(target_index) => target_index,
            None => {
                return false;
            },
        };
        let ghost d = *self;
        match local_index {
            Some(index) => {
                let ghost before = self.graph;
                match self.graph.segment_mut(index) {
                    Some(found) => {
                        found.sibling_segment_id = Some(target_index);
                    },
                    None => {},
                }
                proof {
                    lemma_keeps_wf(before, self.graph);
                    assert(self.graph.segments().dom() =~= before.segments().dom());
                    lemma_items_in(self.next.items@, before.segments(), self.graph.segments());
                    assert(sibling_set(d, *self, index, target_index));
                }
            },
            None => {},
        }
        proof {
            match seeded {
                Some(index) => {
                    assert(target.local is Some && !awaits(old(self).next.items@, target.local->0.id));
                    assert(local_target_seeded(*old(self), b, c, d, *self, index, target_index, target));
                },
                None => {
                    assert(!(target.local is Some && !awaits(old(self).next.items@, target.local->0.id)));
                    assert(*self == d);
                    assert(tip_seeded(
                        *old(self),
                        *self,
                        target_index,
                        Some(target.ref_name),
                        None,
                        None,
                        target.id,
                        CommitFlags { bits: INTEGRATED },
                        Limit {
                            allowance: Some(0usize),
                            goals: old(self).max_limit.goals.joined(goal_flag(old(self).goals.ids@, old(self).tip)).joined(
                                CommitFlags { bits: 0 },
                            ),
                        },
                        true,
                    ));
                },
            }
        }
        true
    }

    /// Seeds the workspace `workspace`, with its target. The commit that
    /// the traversal started from has the flags `tip_flags`. Gives back
    /// the tips of the branches of the stacks of the workspace; `None`
    /// where the graph is full, which it is not while it has room for
    /// three more segments.
    pub fn seed_workspace(&mut self, workspace: WorkspaceTip, tip_flags: CommitFlags) -> (r: Option<Vec<ObjectId>>)
        requires
            old(self).is_fresh(),
        ensures
            final(self).is_fresh(),
            same_seed(*old(self), *final(self)),
            final(self).graph.extra_target == old(self).graph.extra_target,
            match r {
                Some(tips) => tips == workspace.branch_tips && workspace_seeded(
                    *old(self),
                    *final(self),
                    workspace,
                    tip_flags,
                ),
                None => !old(self).graph.has_room(3),
            },
            grew_by(old(self).graph, final(self).graph, 3),
            goals_grew_by(old(self).goals@, final(self).goals@, 3),
    {
        let WorkspaceTip { tip: ws_tip, ref_name: ws_ref, metadata, target, branch_tips } = workspace;
        let is_entry = match &self.graph.entrypoint_ref {
            Some(name) => *name == ws_ref,
            None => false,
        };
        let (ws_extra_flags, ws_limit) = if is_entry {
            (tip_flags, self.max_limit)
        } else {
            let tip = self.tip;
            (CommitFlags::empty(), self.max_limit.with_indirect_goal(tip, &mut self.goals))
        };
        let mut ws_segment = Segment::new(Some(ws_ref));
        ws_segment.metadata = Some(SegmentMetadata::Workspace(metadata));
        let ws_flags = CommitFlags::in_workspace().union(CommitFlags::not_in_remote()).union(ws_extra_flags);
        let ws_index = match self.seed_tip(ws_segment, ws_tip, ws_flags, ws_limit, true) {
            Some(index) => index,
            None => {
                return None;
            },
        };
        if self.graph.entrypoint.is_none() && is_entry {
            let ghost before = self.graph;
            self.graph.entrypoint = Some((ws_index, None));
            proof {
                lemma_keeps_wf(before, self.graph);
            }
        }
        let ghost a = *self;
        match target {
            Some(target) => {
                if !self.seed_target(target) {
                    return None;
                }
            },
            None => {},
        }
        proof {
            assert(workspace_seeded_by(*old(self), a, *self, ws_index, workspace, tip_flags));
        }
        Some(branch_tips)
    }

    /// Seeds the extra target `extra`. Tells whether this was done; it is
    /// not where a segment is needed and the graph is full, which it is
    /// not while it has room for one more segment.
    pub fn seed_extra_target(&mut self, extra: Option<ObjectId>) -> (r: bool)
        requires
            old(self).is_fresh(),
        ensures
            final(self).is_fresh(),
            same_seed(*old(self), *final(self)),
            final(self).graph.entrypoint == old(self).graph.entrypoint,
            r ==> extra_seeded(*old(self), *final(self), extra),
            extra is None || awaits(old(self).next.items@, extra->0) || old(self).graph.has_room(1) ==> r,
            grew_by(old(self).graph, final(self).graph, 1),
            goals_grew_by(old(self).goals@, final(self).goals@, 1),
    {
        match extra {
            Some(id) => {
                let ghost mut b = *self;
                let index = match self.next.segment_of(&id) {
                    Some(index) => {
                        assert(is_segment_of(self.next.items@, id, index));
                        assert(awaits(self.next.items@, id));
                        index
                    },
                    None => {
                        let names = self.names_at(&id);
                        let tip = self.tip;
                        let limit = self.max_limit.with_indirect_goal(tip, &mut self.goals).without_allowance();
                        match self.seed_tip(branch_segment(&names), id, CommitFlags::integrated(), limit, true) {
                            Some(index) => {
                                proof {
                                    b = *self;
                                }
                                index
                            },
                            None => {
                                return false;
                            },
                        }
                    },
                };
                let ghost before = self.graph;
                self.graph.extra_target = Some(index);
                proof {
                    lemma_keeps_wf(before, self.graph);
                    assert(extra_target_set(b, *self, index));
                    if awaits(old(self).next.items@, id) {
                        assert(b == *old(self));
                        assert(is_segment_of(old(self).next.items@, id, index));
                    } else {
                        assert(tip_seeded(
                            *old(self),
                            b,
                            index,
                            natural_name(names_of(old(self).refs_by_id@, id)),
                            None,
                            None,
                            id,
                            CommitFlags { bits: INTEGRATED },
                            Limit {
                                allowance: Some(0usize),
                                goals: old(self).max_limit.goals.joined(goal_flag(old(self).goals.ids@, old(self).tip)),
                            },
                            true,
                        ));
                    }
                }
                true
            },
            None => true,
        }
    }

    /// Seeds the tips `tips` of the branches of the stacks, one after the
    /// other. Tells whether this was done; it is not where the graph is
    /// full, which it is not while it has room for as many segments as
    /// there are tips.
    pub fn seed_branch_tips(&mut self, tips: &Vec<ObjectId>) -> (r: bool)
        requires
            old(self).is_fresh(),
        ensures
            final(self).is_fresh(),
            same_seed(*old(self), *final(self)),
            same_entry(*old(self), *final(self)),
            r ==> branch_tips_seeded(*old(self), *final(self), tips@),
            old(self).graph.has_room(tips@.len() as int) ==> r,
            grew_by(old(self).graph, final(self).graph, tips@.len() as int),
            final(self).goals == old(self).goals,
    {
        let mut k: usize = 0;
        proof {
            assert(tips@.take(0) =~= Seq::<ObjectId>::empty());
        }
        while k < tips.len()
            invariant
                k <= tips.len(),
                grew_by(old(self).graph, self.graph, k as int),
                self.goals == old(self).goals,
                self.is_fresh(),
                same_seed(*old(self), *self),
                same_entry(*old(self), *self),
                branch_tips_seeded(*old(self), *self, tips@.take(k as int)),
            decreases tips.len() - k,
        {
            let id = tips[k];
            let ghost mid = *self;
            if !self.next.is_queued(&id) {
                let names = self.names_at(&id);
                let limit = self.max_limit;
                match self.seed_tip(branch_segment(&names), id, CommitFlags::not_in_remote(), limit, false) {
                    Some(index) => {
                        assert(!awaits(mid.next.items@, id));
                        assert(tip_seeded(
                            mid,
                            *self,
                            index,
                            natural_name(names_of(mid.refs_by_id@, id)),
                            None,
                            None,
                            id,
                            CommitFlags { bits: NOT_IN_REMOTE },
                            mid.max_limit,
                            false,
                        ));
                    },
                    None => {
                        return false;
                    },
                }
            } else {
                assert(awaits(mid.next.items@, id));
            }
            proof {
                let upto = tips@.take(k + 1);
                assert(upto.drop_last() =~= tips@.take(k as int));
                assert(upto.last() == id);
                assert(branch_tip_seeded(mid, *self, id));
                assert(branch_tips_seeded(*old(self), mid, upto.drop_last()) && branch_tip_seeded(mid, *self, upto.last()));
            }
            k += 1;
        }
        proof {
            assert(tips@.take(k as int) =~= tips@);
        }
        true
    }

    /// Starts a traversal.
    ///
    /// Unless the reference of the tip is that of a workspace, the tip is
    /// queued for a segment of its own, which is the entrypoint. Each
    /// workspace is queued in front of it for a segment that bears its
    /// reference and its metadata; so is its target, as integrated, and
    /// the local branch of the target. Then come the extra target of the
    /// options, in front, and the tips of the branches of the stacks, at
    /// the back, each unless it is queued.
    ///
    /// A traversal cannot start at a remote-tracking branch. Any other
    /// starts, unless it needs more segments than a graph has indices for,
    /// or more goals than there are flags for them.
    pub fn start(seed: Seed, options: Options) -> (r: Result<Traversal, StartError>)
        ensures
            match r {
                Ok(t) => {
                    &&& t.is_fresh()
                    &&& t.wf()
                    &&& !(seed.ref_name is Some && is_remote_name(seed.ref_name->0@))
                    &&& started(seed, options, t)
                    &&& !t.goals.missed
                    &&& flags_descend(t.graph.segments())
                    &&& t.tip == seed.tip
                    &&& !t.detached
                    &&& !t.graph.hard_limit_hit
                    &&& t.graph.options == options
                    &&& t.graph.entrypoint_ref == seed.ref_name
                    &&& t.max_limit == (Limit { allowance: options.commits_limit_hint, goals: CommitFlags { bits: 0 } })
                    &&& t.next.max == options.hard_limit
                    &&& t.refs_by_id == seed.refs_by_id
                    &&& seed.workspaces@.len() == 0 && options.extra_target_commit_id is None ==> {
                        &&& t.next.items@.len() == 1
                        &&& t.next.items@[0].id == seed.tip
                        &&& t.next.items@[0].limit == t.max_limit
                        &&& t.next.items@[0].flags == first_tip_flags()
                        &&& t.graph.entrypoint == Some((t.next.items@[0].instruction.segment(), None::<usize>))
                        &&& t.next.items@[0].instruction is CollectCommit
                        &&& t.graph.segments().dom() == set![t.next.items@[0].instruction.segment() as int]
                        &&& options.commits_limit_hint is None && options.hard_limit is None ==> covers(t)
                    }
                },
                Err(StartError::RemoteStart) => seed.ref_name is Some && is_remote_name(seed.ref_name->0@),
                Err(StartError::Full) => !(seed.ref_name is Some && is_remote_name(seed.ref_name->0@))
                    && segments_needed(seed) > 0xffff_ffff,
                Err(StartError::TooManyGoals) => !(seed.ref_name is Some && is_remote_name(seed.ref_name->0@))
                    && goals_needed(seed) > MAX_GOALS && exists|t: Traversal| #[trigger]
                    started(seed, options, t) && t.goals.missed,
            },
    {
        let Seed { tip, ref_name, workspaces, refs_by_id } = seed;
        match &ref_name {
            Some(name) => {
                if is_remote_branch(name) {
                    return Err(StartError::RemoteStart);
                }
            },
            None => {},
        }
        let max_limit = Limit::new(options.commits_limit_hint);
        let hard_limit = options.hard_limit;
        let extra_target = options.extra_target_commit_id;
        let mut graph = Graph::new(options);
        graph.entrypoint_ref = clone_name(&ref_name);
        let mut t = Traversal {
            graph,
            next: Queue::new_with_limit(hard_limit),
            goals: Goals::new(),
            refs_by_id,
            max_limit,
            tip,
            detached: false,
            seen: seen_new(),
        };
        assert(t.is_fresh()) by {
            assert(t.graph.segments().dom() =~= Set::<int>::empty());
            assert(t.graph.edges().dom() =~= Set::<int>::empty());
        }
        let tip_goal = t.goals.flag_or_none(tip);
        let tip_flags = CommitFlags::not_in_remote().union(tip_goal);
        let ghost blank = t;
        proof {
            assert(blank.goals.ids@ =~= seq![tip]);
            assert(blank.goals@ == (GoalsView { ids: seq![tip], missed: false }));
            assert(tip_flags == first_tip_flags());
            assert(blank.graph.entrypoint_ref == seed.ref_name);
            assert(blank.graph.segments().dom() == Set::<int>::empty());
            assert(blank.graph.edges().dom() == Set::<int>::empty());
            assert(blank.refs_by_id == seed.refs_by_id);
            assert(blank.next.items@.len() == 0);
            assert(is_blank(seed, options, blank));
        }
        let tip_is_workspace = names_workspace(&workspaces, &ref_name);
        if !tip_is_workspace {
            let names = t.names_at(&tip);
            match t.seed_tip(branch_segment(&names), tip, tip_flags, max_limit, false) {
                Some(current) => {
                    let ghost before = t.graph;
                    t.graph.entrypoint = Some((current, None));
                    proof {
                        lemma_keeps_wf(before, t.graph);
                        assert(t.graph.segments().dom() =~= set![current as int]);
                        assert(t.next.items@ =~= seq![tip_item(tip, tip_flags, max_limit, current)]);
                        assert(tip_seeded(
                            blank,
                            t,
                            current,
                            natural_name(names_of(seed.refs_by_id@, seed.tip)),
                            None,
                            None,
                            seed.tip,
                            first_tip_flags(),
                            blank.max_limit,
                            false,
                        ));
                    }
                },
                None => {
                    return Err(StartError::Full);
                },
            }
        }
        let ghost head = t;
        assert(headed(seed, blank, head));
        let mut stack_tips: Vec<ObjectId> = Vec::new();
        let ghost all = workspaces@;
        proof {
            assert(all.take(0) =~= Seq::<WorkspaceTip>::empty());
        }
        for workspace in it: workspaces
            invariant
                all == it.seq(),
                all == seed.workspaces@,
                !(seed.ref_name is Some && is_remote_name(seed.ref_name->0@)),
                blank.graph.segments().dom() == Set::<int>::empty(),
                grew_by(blank.graph, t.graph, 1 + 3 * it.index() as int),
                goals_grew_by(blank.goals@, t.goals@, 3 * it.index() as int),
                t.is_fresh(),
                same_seed(head, t),
                t.graph.extra_target == head.graph.extra_target,
                workspaces_seeded(head, t, all.take(it.index() as int), tip_flags),
                stack_tips@ == stack_tips_of(all.take(it.index() as int)),
        {
            let ghost mid = t;
            let ghost n = it.index() as int;
            let mut tips = match t.seed_workspace(workspace, tip_flags) {
                Some(tips) => tips,
                None => {
                    return Err(StartError::Full);
                },
            };
            proof {
                let upto = all.take(n + 1);
                assert(upto.drop_last() =~= all.take(n));
                assert(upto.last() == workspace);
                assert(workspaces_seeded(head, mid, upto.drop_last(), tip_flags) && workspace_seeded(
                    mid,
                    t,
                    upto.last(),
                    tip_flags,
                ));
            }
            stack_tips.append(&mut tips);
        }
        proof {
            assert(all.take(all.len() as int) =~= all);
        }
        let ghost with_workspaces = t;
        if !t.seed_extra_target(extra_target) {
            return Err(StartError::Full);
        }
        let ghost with_extra = t;
        if !t.seed_branch_tips(&stack_tips) {
            return Err(StartError::Full);
        }
        proof {
            assert(started_by(seed, options, blank, head, with_workspaces, with_extra, t));
            assert(started(seed, options, t));
            assert(blank.goals@.ids.len() == 1 && !blank.goals@.missed);
            assert(goals_grew_by(blank.goals@, with_workspaces.goals@, 3 * seed.workspaces@.len() as int));
            assert(goals_grew_by(with_workspaces.goals@, with_extra.goals@, 1));
            assert(t.goals == with_extra.goals);
        }
        if t.goals.missed {
            return Err(StartError::TooManyGoals);
        }
        proof {
            lemma_all_empty(t.graph.segments());
            lemma_descend_empty(t.graph.segments());
            if seed.workspaces@.len() == 0 && options.extra_target_commit_id is None {
                assert(t == head);
                if options.commits_limit_hint is None && options.hard_limit is None {
                    let g = CommitFlags::goal_bit(0);
                    assert((1u32 | g) & 1u32 == 1u32) by (bit_vector);
                    assert(t.next.items@[0].id == t.tip);
                    lemma_fresh_covers(t);
                }
            }
        }
        Ok(t)
    }
}

/// Whether `name` is the reference of one of the workspaces.
pub fn names_workspace(workspaces: &Vec<WorkspaceTip>, name: &Option<String>) -> (r: bool)
    ensures
        r == (name is Some && exists|k: int|
            0 <= k < workspaces@.len() && (#[trigger] workspaces@[k]).ref_name@ == name->0@),
        workspaces@.len() == 0 ==> !r,
{
    match name {
        None => false,
        Some(n) => {
            let mut k: usize = 0;
            while k < workspaces.len()
                invariant
                    k <= workspaces.len(),
                    *name == Some(*n),
                    forall|m: int| 0 <= m < k ==> (#[trigger] workspaces@[m]).ref_name@ != n@,
                decreases workspaces.len() - k,
            {
                if workspaces[k].ref_name == *n {
                    assert(workspaces@[k as int].ref_name@ == name->0@);
                    return true;
                }
                k += 1;
            }
            false
        },
    }
}

impl Traversal {
    /// Starts from where `HEAD` points.
    ///
    /// A branch without commits gives a graph of one segment, which bears
    /// the name of the branch and is the entrypoint. A commit gives a
    /// traversal without a reference, which is marked as detached. A
    /// reference gives a traversal from the commit it points at. A
    /// traversal starts unless it needs more segments than a graph has
    /// indices for, or the reference is a remote-tracking branch.
    pub fn from_head(head: Head, workspaces: Vec<WorkspaceTip>, refs_by_id: Vec<RefsAt>, options: Options) -> (r:
        Result<Begin, StartError>)
        ensures
            match head {
                Head::Unborn { ref_name } => match r {
                    Ok(Begin::Unborn(g)) => {
                        &&& g.wf()
                        &&& g.options == options
                        &&& g.edges().dom() == Set::<int>::empty()
                        &&& exists|index: u32|
                            {
                                &&& g.entrypoint == Some((index, None::<usize>))
                                &&& g.segments().dom() == set![index as int]
                                &&& (#[trigger] g.segments()[index as int]).ref_name == Some(ref_name)
                                &&& g.segments()[index as int].commits@.len() == 0
                            }
                    },
                    Ok(Begin::Walk(_)) => false,
                    Err(_) => false,
                },
                Head::Detached { id } => match r {
                    Ok(Begin::Walk(t)) => {
                        &&& t.wf()
                        &&& t.is_fresh()
                        &&& t.detached
                        &&& t.tip == id
                        &&& t.graph.options == options
                        &&& t.graph.entrypoint_ref is None
                        &&& exists|attached: Traversal| #[trigger]
                            started(Seed { tip: id, ref_name: None, workspaces, refs_by_id }, options, attached) && t
                                == (Traversal {
                                graph: attached.graph,
                                next: attached.next,
                                goals: attached.goals,
                                refs_by_id: attached.refs_by_id,
                                max_limit: attached.max_limit,
                                tip: attached.tip,
                                detached: true,
                                seen: attached.seen,
                            })
                    },
                    Ok(Begin::Unborn(_)) => false,
                    Err(StartError::RemoteStart) => false,
                    Err(StartError::Full) => segments_needed(Seed { tip: id, ref_name: None, workspaces, refs_by_id })
                        > 0xffff_ffff,
                    Err(StartError::TooManyGoals) => goals_needed(
                        Seed { tip: id, ref_name: None, workspaces, refs_by_id },
                    ) > MAX_GOALS,
                },
                Head::Symbolic { ref_name, id } => match r {
                    Ok(Begin::Walk(t)) => {
                        &&& t.wf()
                        &&& t.is_fresh()
                        &&& !t.detached
                        &&& t.tip == id
                        &&& t.graph.options == options
                        &&& t.graph.entrypoint_ref == Some(ref_name)
                        &&& !is_remote_name(ref_name@)
                        &&& started(Seed { tip: id, ref_name: Some(ref_name), workspaces, refs_by_id }, options, t)
                    },
                    Ok(Begin::Unborn(_)) => false,
                    Err(StartError::RemoteStart) => is_remote_name(ref_name@),
                    Err(StartError::Full) => !is_remote_name(ref_name@) && segments_needed(
                        Seed { tip: id, ref_name: Some(ref_name), workspaces, refs_by_id },
                    ) > 0xffff_ffff,
                    Err(StartError::TooManyGoals) => !is_remote_name(ref_name@) && goals_needed(
                        Seed { tip: id, ref_name: Some(ref_name), workspaces, refs_by_id },
                    ) > MAX_GOALS,
                },
            },
    {
        match head {
            Head::Unborn { ref_name } => {
                let mut graph = Graph::new(options);
                match graph.insert_segment_set_entrypoint(Segment::new(Some(ref_name))) {
                    Some(index) => {
                        assert(graph.segments().dom() =~= set![index as int]);
                        assert(graph.edges().dom() =~= Set::<int>::empty());
                        assert(graph.segments()[index as int].ref_name == Some(ref_name));
                        assert(graph.segments()[index as int].commits@.len() == 0);
                        assert(graph.entrypoint == Some((index, None::<usize>)));
                        Ok(Begin::Unborn(graph))
                    },
                    None => Err(StartError::Full),
                }
            },
            Head::Detached { id } => {
                match Traversal::start(Seed { tip: id, ref_name: None, workspaces, refs_by_id }, options) {
                    Ok(t) => {
                        let ghost attached = t;
                        let mut t = t;
                        t.detached = true;
                        assert(started(Seed { tip: id, ref_name: None, workspaces, refs_by_id }, options, attached));
                        Ok(Begin::Walk(t))
                    },
                    Err(e) => Err(e),
                }
            },
            Head::Symbolic { ref_name, id } => {
                match Traversal::start(Seed { tip: id, ref_name: Some(ref_name), workspaces, refs_by_id }, options) {
                    Ok(t) => Ok(Begin::Walk(t)),
                    Err(e) => Err(e),
                }
            },
        }
    }
}

} // verus!
