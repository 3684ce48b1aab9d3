//! A step of a traversal: the commit at the front of the queue is put into
//! its segment, or, where the graph holds it, met again; its parents are
//! queued, and so are the remote-tracking branches of its local branches.

use vstd::prelude::*;

use crate::graph::arena::{
    commit_at, commits_once, edge_between, flagged, grows, holds_commit, grew_by, lemma_grows, lemma_keeps_wf, link_of,
    rewired, same_but, same_header, split_at, Graph,
};
use crate::graph::cover::{covers, lemma_met_covers, lemma_taken_covers};
use crate::graph::descent::{flags_descend, lemma_descend_cut_short, lemma_descend_met, lemma_descend_taken};
use crate::graph::flags::{
    asked, goal_flag, goals_grew_by, goals_with, lemma_flags_order, CommitFlags, MAX_GOALS,
};
use crate::graph::init::{
    clone_name, holds_flagged, items_in, lemma_empty_segment, lemma_items_in, names_of, with_segment, Advance,
    CommitInfo, RemoteTip, Traversal,
};
use crate::graph::limit::Limit;
use crate::graph::options::Options;
use crate::graph::queue::{awaits, marked_item, parent_items, retargeted, Instruction, QueueItem};
use crate::graph::reach::{marks_reach, reaches};
use crate::graph::refs::{branch_segment, find_only_local, lemma_refs_position, natural_name, refs_position, RefsAt};
use crate::graph::roots::{
    keeps_roots, keeps_roots_with, lemma_rooted_met, lemma_rooted_taken, lemma_rooted_taken_with, rooted,
};
use crate::graph::segment::{Commit, Edge, Segment};
use crate::graph::store::lists_nodes;
use crate::graph::seen::{seen_get, seen_ids, seen_insert};
use crate::object_id::ObjectId;

verus! {

/// Whether `after` holds the commits of `before` from the place `from` on
/// with the flags `flags` added, and is the same otherwise.
pub open spec fn flags_added(before: Segment, after: Segment, from: int, flags: CommitFlags) -> bool {
    &&& same_header(after, before)
    &&& after.commits@.len() == before.commits@.len()
    &&& forall|c: int| 0 <= c < from && c < before.commits@.len() ==> after.commits@[c] == before.commits@[c]
    &&& forall|c: int|
        from <= c < before.commits@.len() ==> flagged(before.commits@[c], #[trigger] after.commits@[c], flags)
}

/// Whether `after` is `before` with the flags `flags` added to the commits
/// that come after the place `from` of the segment `start` on any way
/// along the edges: the commits of `start` from `from` on, and those of
/// all other segments that `start` reaches.
pub open spec fn spread(
    before: Map<int, Segment>,
    after: Map<int, Segment>,
    edges: Map<int, (int, int, Edge)>,
    start: u32,
    from: usize,
    flags: CommitFlags,
) -> bool {
    &&& after.dom() == before.dom()
    &&& forall|s: int| #[trigger]
        before.contains_key(s) ==> if reaches(edges, start as int, s) {
            flags_added(before[s], after[s], if s == start { from as int } else { 0 }, flags)
        } else {
            after[s] == before[s]
        }
}

/// The item with the flags `flags` added where its segment can be reached
/// from the segment `start`.
pub open spec fn reached_item(item: QueueItem, edges: Map<int, (int, int, Edge)>, start: u32, flags: CommitFlags) -> QueueItem {
    if reaches(edges, start as int, item.instruction.segment() as int) {
        QueueItem { id: item.id, flags: item.flags.joined(flags), instruction: item.instruction, limit: item.limit }
    } else {
        item
    }
}

/// The flags of the last commit of the segment `s`; none where it has no commit.
pub open spec fn last_flags(segments: Map<int, Segment>, s: int) -> CommitFlags {
    if segments.contains_key(s) && segments[s].commits@.len() > 0 {
        segments[s].commits@.last().flags
    } else {
        CommitFlags { bits: 0 }
    }
}

/// The place of the last commit of the segment `s`, if it has one.
pub open spec fn last_place(segments: Map<int, Segment>, s: int) -> Option<usize> {
    if segments.contains_key(s) && segments[s].commits@.len() > 0 {
        Some((segments[s].commits@.len() - 1) as usize)
    } else {
        None
    }
}

/// The limit of the lane of `item` when it is taken: at a commit where
/// lanes may spend anew it has the allowance of `max_limit`.
pub open spec fn recharged(item: QueueItem, options: Options, max_limit: Limit) -> Limit {
    if options.commits_limit_recharge_location@.contains(item.id) {
        Limit { allowance: max_limit.allowance, goals: item.limit.goals }
    } else {
        item.limit
    }
}

/// Whether a commit with the references `names` that was queued with
/// `instruction` starts a segment of its own.
pub open spec fn starts_segment(segments: Map<int, Segment>, instruction: Instruction, names: Seq<String>) -> bool {
    match instruction {
        Instruction::CollectCommit { into } => segments[into as int].commits@.len() > 0 && natural_name(names) is Some,
        Instruction::ConnectNewSegment { .. } => true,
    }
}

/// The place that a new segment hangs below, for a commit that was queued
/// with `instruction`.
pub open spec fn place_above(segments: Map<int, Segment>, instruction: Instruction) -> Option<usize> {
    match instruction {
        Instruction::CollectCommit { into } => last_place(segments, into as int),
        Instruction::ConnectNewSegment { at_commit, .. } => Some(at_commit),
    }
}

/// Whether `halves` is `before` made ready for the commit at the place
/// `commit` of the segment `segment` to be met again: where that is not
/// the first place, the segment is split there, and the commit starts the
/// new segment `target`.
pub open spec fn halved(before: Graph, halves: Graph, segment: u32, commit: usize, target: u32) -> bool {
    if commit == 0 {
        target == segment && halves.segments() == before.segments() && halves.edges() == before.edges()
    } else {
        split_at(before.segments(), halves.segments(), segment, target, commit) && rewired(
            before.edges(),
            halves.edges(),
            segment,
            target,
            commit,
            link_of(before.segments(), segment, target, commit),
        )
    }
}

/// Whether `after` is `halves` with the last commit of the segment `src`
/// connected with the first commit of `target`, unless they are one
/// segment, and with the flags `flags` added to all that `target` reaches.
pub open spec fn joined(halves: Graph, after: Graph, src: u32, target: u32, flags: CommitFlags) -> bool {
    &&& if src == target {
        after.edges() == halves.edges()
    } else {
        exists|e: int| #[trigger]
            after.edges().contains_key(e) && !halves.edges().contains_key(e) && after.edges() == halves.edges().insert(
                e,
                (
                    src as int,
                    target as int,
                    edge_between(
                        halves.segments(),
                        src,
                        last_place(halves.segments(), src as int),
                        None,
                        target,
                        Some(0usize),
                        None,
                    ),
                ),
            )
    }
    &&& spread(halves.segments(), after.segments(), after.edges(), target, 0, flags)
}

/// Whether `after` is `before` with the commit at the place `commit` of
/// the segment `segment` met again by a lane from the segment `src` with
/// the flags `flags`; the commit starts the segment `target` then.
pub open spec fn met_again(
    before: Graph,
    after: Graph,
    segment: u32,
    commit: usize,
    flags: CommitFlags,
    src: u32,
    target: u32,
) -> bool {
    exists|halves: Graph| #[trigger] halved(before, halves, segment, commit, target) && joined(halves, after, src, target, flags)
}

/// The items of the queue when the commit at the place `commit` of the
/// segment `segment` was met again.
pub open spec fn items_met(
    items: Seq<QueueItem>,
    edges: Map<int, (int, int, Edge)>,
    segment: u32,
    commit: usize,
    target: u32,
    flags: CommitFlags,
) -> Seq<QueueItem> {
    Seq::new(
        items.len(),
        |k: int|
            reached_item(
                if commit == 0 {
                    items[k]
                } else {
                    retargeted(items[k], segment, target, commit)
                },
                edges,
                target,
                flags,
            ),
    )
}

/// Whether the commit `made` is what `info` becomes in a segment of the
/// name `own`, when the references `names` point at it: it keeps its
/// parents, and its references are those names but that of the segment.
pub open spec fn is_commit_of(made: Commit, info: CommitInfo, names: Seq<String>, own: Option<String>) -> bool {
    &&& made.id == info.id
    &&& made.parent_ids == info.parent_ids
    &&& made.refs@ == names_but(names, own)
}

/// Whether `after` is `before` with the segment `s` found for the commit
/// of `item`: the segment it was queued for, with nothing changed, or a
/// new segment without commits below that one, which is named after the
/// only local branch among `names` and hangs on an edge of its own.
pub open spec fn placed(before: Graph, after: Graph, item: QueueItem, names: Seq<String>, s: u32) -> bool {
    let src = item.instruction.segment();
    if starts_segment(before.segments(), item.instruction, names) {
        &&& with_segment(before.segments(), after.segments(), s, natural_name(names), None, None)
        &&& exists|e: int| #[trigger]
            after.edges().contains_key(e) && !before.edges().contains_key(e) && after.edges() == before.edges().insert(
                e,
                (
                    src as int,
                    s as int,
                    Edge {
                        src: place_above(before.segments(), item.instruction),
                        src_id: before.segments()[src as int].id_at(place_above(before.segments(), item.instruction)),
                        dst: Some(0usize),
                        dst_id: Some(item.id),
                    },
                ),
            )
    } else {
        &&& s == src
        &&& before.segments().contains_key(s as int)
        &&& after.segments() == before.segments()
        &&& after.edges() == before.edges()
    }
}

/// Whether `popped` is `before` without the first item of its queue.
pub open spec fn is_popped(before: Traversal, popped: Traversal) -> bool {
    &&& popped.seen == before.seen
    &&& popped.graph == before.graph
    &&& popped.goals == before.goals
    &&& popped.refs_by_id == before.refs_by_id
    &&& popped.max_limit == before.max_limit
    &&& popped.tip == before.tip
    &&& popped.detached == before.detached
    &&& popped.next.count == before.next.count
    &&& popped.next.max == before.next.max
    &&& popped.next.items@ == before.next.items@.drop_first()
}

/// The references by commit without the entry for the commit `id`.
pub open spec fn refs_without(refs: Seq<RefsAt>, id: ObjectId) -> Seq<RefsAt> {
    match refs_position(refs, id) {
        Some(k) => refs.remove(k),
        None => refs,
    }
}

/// Whether `ready` is what comes of `before` by way of `at` when the
/// commit `info`, which was queued as `item`, is made ready to be settled
/// in the segment `s`.
///
/// The references that point at the commit leave the index of
/// references. In `at`, the segment `s` for the commit is found: see
/// [`placed`]. In `ready`, the remote-tracking branches of the commit
/// have their segments, and `later` are the items for them: see
/// [`remotes_queued`].
pub open spec fn prepared(
    before: Traversal,
    at: Traversal,
    ready: Traversal,
    later: Seq<QueueItem>,
    own: CommitFlags,
    sought: CommitFlags,
    item: QueueItem,
    info: CommitInfo,
    s: u32,
) -> bool {
    let names = names_of(before.refs_by_id@, info.id);
    &&& at.refs_by_id@ == refs_without(before.refs_by_id@, info.id)
    &&& at.next == before.next
    &&& at.goals == before.goals
    &&& at.max_limit == before.max_limit
    &&& at.tip == before.tip
    &&& at.detached == before.detached
    &&& seen_ids(at.seen) == seen_ids(before.seen).insert(info.id@, s as int)
    &&& at.graph.entrypoint == before.graph.entrypoint
    &&& at.graph.entrypoint_ref == before.graph.entrypoint_ref
    &&& at.graph.extra_target == before.graph.extra_target
    &&& at.graph.hard_limit_hit == before.graph.hard_limit_hit
    &&& at.graph.options == before.graph.options
    &&& placed(before.graph, at.graph, item, names, s)
    &&& remotes_queued(at, ready, info.id, info.remote_tips@, later, own, sought)
}

/// Whether `after` is what comes of `before` when the commit `info`,
/// which the graph does not hold and which was queued as `item`, is
/// collected by way of `at` and `ready`, and `r` tells how it went.
///
/// First the commit is made ready: see [`prepared`]. No goal was missed
/// by then. Then the commit is settled in `s`: see
/// [`settled`]. Its lane has the flags that the commit was queued with,
/// those of the last commit of the segment it was queued for, and the
/// flag of the commit as a goal, where a remote-tracking branch looks for
/// it. The limit of the lane is that of the item, with a new allowance at
/// a commit where lanes may spend anew, and with the tips of the
/// remote-tracking branches as further goals.
pub open spec fn collected(
    before: Traversal,
    at: Traversal,
    ready: Traversal,
    after: Traversal,
    later: Seq<QueueItem>,
    own: CommitFlags,
    sought: CommitFlags,
    item: QueueItem,
    info: CommitInfo,
    s: u32,
    r: Advance,
) -> bool {
    let names = names_of(before.refs_by_id@, info.id);
    let lane = item.flags.joined(last_flags(before.graph.segments(), item.instruction.segment() as int));
    let limit = recharged(item, before.graph.options, before.max_limit);
    &&& prepared(before, at, ready, later, own, sought, item, info, s)
    &&& !ready.goals.missed
    &&& settled(
        ready,
        after,
        s,
        info,
        names,
        lane.joined(own),
        Limit { allowance: limit.allowance, goals: limit.goals.joined(sought) },
        later,
        r,
    )
}

/// Whether `after` is what `before` came to when the remote-tracking
/// branches of the commit `info`, which was queued as `item`, asked for
/// more goals than there were flags left: the segments for the commit and
/// for its branches are there, and the commit is not: see [`prepared`].
pub open spec fn ran_out(before: Traversal, after: Traversal, item: QueueItem, info: CommitInfo) -> bool {
    exists|s: u32, at: Traversal, later: Seq<QueueItem>, own: CommitFlags, sought: CommitFlags| #[trigger]
        prepared(before, at, after, later, own, sought, item, info, s) && after.goals.missed
}

/// Whether `after` is `before` with the commit `info`, which was queued as
/// `item`, put at the place `c` of the segment `s`: see [`collected`].
pub open spec fn taken(before: Traversal, after: Traversal, item: QueueItem, info: CommitInfo, s: u32, c: usize) -> bool {
    exists|at: Traversal, ready: Traversal, later: Seq<QueueItem>, own: CommitFlags, sought: CommitFlags| #[trigger]
        collected(before, at, ready, after, later, own, sought, item, info, s, Advance::Taken { segment: s, commit: c })
}

/// Whether `after` is what `before` came to when the queue was exhausted
/// while the commit `info`, which was queued as `item`, was collected:
/// see [`collected`].
pub open spec fn cut_short(before: Traversal, after: Traversal, item: QueueItem, info: CommitInfo) -> bool {
    exists|s: u32, at: Traversal, ready: Traversal, later: Seq<QueueItem>, own: CommitFlags, sought: CommitFlags| #[trigger]
        collected(before, at, ready, after, later, own, sought, item, info, s, Advance::HardLimit)
}

/// Whether `after` has all of `before` but the segments and the goals.
pub open spec fn same_but_segments(before: Traversal, after: Traversal) -> bool {
    &&& after.seen == before.seen
    &&& after.next == before.next
    &&& after.refs_by_id == before.refs_by_id
    &&& after.max_limit == before.max_limit
    &&& after.tip == before.tip
    &&& after.detached == before.detached
    &&& after.graph.edges() == before.graph.edges()
    &&& after.graph.entrypoint == before.graph.entrypoint
    &&& after.graph.entrypoint_ref == before.graph.entrypoint_ref
    &&& after.graph.extra_target == before.graph.extra_target
    &&& after.graph.hard_limit_hit == before.graph.hard_limit_hit
    &&& after.graph.options == before.graph.options
}

/// Whether a remote-tracking branch that points at the commit `tip` is
/// left out when the branches of the commit `id` are queued: it points
/// at `id` itself, or at a commit that is queued, held, or among `later`.
pub open spec fn remote_known(t: Traversal, later: Seq<QueueItem>, id: ObjectId, tip: ObjectId) -> bool {
    tip == id || awaits(t.next.items@, tip) || holds_commit(t.graph.segments(), tip) || awaits(later, tip)
}

/// Whether `after`, `later2`, `own2` and `sought2` are what comes of
/// `before`, `later`, `own` and `sought` when the remote-tracking branch
/// `tip` of the commit `id` is looked at.
///
/// Unless the branch is left out, it gets a segment of its own, without
/// commits, that bears its name. The commit `id` and the tip of the
/// branch are asked for as goals, in this order. The item for the tip
/// goes behind `later`: it has the flag of the tip as a goal, and a lane
/// without allowance that looks for the goals of the lanes that start at
/// tips and for `id`. The flag of `id` as a goal goes to `own2`, that of
/// the tip to `sought2`.
pub open spec fn remote_queued(
    before: Traversal,
    later: Seq<QueueItem>,
    own: CommitFlags,
    sought: CommitFlags,
    id: ObjectId,
    tip: RemoteTip,
    after: Traversal,
    later2: Seq<QueueItem>,
    own2: CommitFlags,
    sought2: CommitFlags,
) -> bool {
    if remote_known(before, later, id, tip.id) {
        after == before && later2 == later && own2 == own && sought2 == sought
    } else {
        let own_goal = goal_flag(before.goals.ids@, id);
        let ids = goals_with(before.goals.ids@, id);
        let tip_goal = goal_flag(ids, tip.id);
        &&& same_but_segments(before, after)
        &&& after.goals@ == asked(asked(before.goals@, id), tip.id)
        &&& own2 == own.joined(own_goal)
        &&& sought2 == sought.joined(tip_goal)
        &&& exists|index: u32| #[trigger]
            with_segment(before.graph.segments(), after.graph.segments(), index, Some(tip.ref_name), None, None)
                && later2 == later.push(
                QueueItem {
                    id: tip.id,
                    flags: tip_goal,
                    instruction: Instruction::CollectCommit { into: index },
                    limit: Limit { allowance: Some(0usize), goals: before.max_limit.goals.joined(own_goal) },
                },
            )
    }
}

/// Whether `after`, `later`, `own` and `sought` are what comes of
/// `before` when the remote-tracking branches `tips` of the commit `id`
/// are looked at one after the other: see [`remote_queued`].
pub open spec fn remotes_queued(
    before: Traversal,
    after: Traversal,
    id: ObjectId,
    tips: Seq<RemoteTip>,
    later: Seq<QueueItem>,
    own: CommitFlags,
    sought: CommitFlags,
) -> bool
    decreases tips.len(),
{
    if tips.len() == 0 {
        after == before && later == Seq::<QueueItem>::empty() && own.bits == 0 && sought.bits == 0
    } else {
        exists|mid: Traversal, l: Seq<QueueItem>, o: CommitFlags, s: CommitFlags|
            remotes_queued(before, mid, id, tips.drop_last(), l, o, s) && #[trigger] remote_queued(
                mid,
                l,
                o,
                s,
                id,
                tips.last(),
                after,
                later,
                own,
                sought,
            )
    }
}

/// How many parents of the commit `info` are queued for a lane with the
/// flags `flags` and the limit `limit`: none where the lane must stop,
/// else all, or as many as it takes to exhaust the queue.
pub open spec fn parents_pushed(before: Traversal, info: CommitInfo, flags: CommitFlags, limit: Limit) -> int {
    if limit.is_spent(flags) {
        0
    } else {
        crate::graph::queue::pushes(before.next.count, before.next.max, info.parent_ids@.len() as int)
    }
}

/// Whether `after` has all of `before` but the graph and the queue.
pub open spec fn same_walk(before: Traversal, after: Traversal) -> bool {
    &&& after.seen == before.seen
    &&& after.goals == before.goals
    &&& after.refs_by_id == before.refs_by_id
    &&& after.max_limit == before.max_limit
    &&& after.tip == before.tip
    &&& after.detached == before.detached
    &&& after.next.max == before.next.max
    &&& after.graph.edges() == before.graph.edges()
    &&& after.graph.entrypoint == before.graph.entrypoint
    &&& after.graph.entrypoint_ref == before.graph.entrypoint_ref
    &&& after.graph.extra_target == before.graph.extra_target
    &&& after.graph.options == before.graph.options
}

/// Whether `after` is `before` with the commit `info` settled at the end
/// of the segment `segment`, and `r` tells how that went.
///
/// The commit is put behind the last commit of the segment, with the
/// flags `flags` and those of that commit, and with the references
/// `names` but the name of the segment. Then its parents are queued for a
/// lane with the flags `flags` and the limit `limit`, which is charged
/// for the commit. Where a push exhausts the queue, that is all, and the
/// traversal is over. Else the items `later` are queued. Where a push
/// exhausts the queue, the traversal is over. Else the lanes that have
/// nothing left to find are dropped, and the commit was taken.
pub open spec fn settled(
    before: Traversal,
    after: Traversal,
    segment: u32,
    info: CommitInfo,
    names: Seq<String>,
    flags: CommitFlags,
    limit: Limit,
    later: Seq<QueueItem>,
    r: Advance,
) -> bool {
    let segs = before.graph.segments();
    let now = after.graph.segments();
    let max = before.next.max;
    let place = segs[segment as int].commits@.len();
    let n = parents_pushed(before, info, flags, limit);
    let parents = parent_items(info.parent_ids@, n, flags, segment, place as usize, limit.charged(flags));
    let count = crate::graph::queue::counted_by(before.next.count, n);
    let m = crate::graph::queue::pushes(count, max, later.len() as int);
    &&& same_walk(before, after)
    &&& same_but(segs, now, segment as int)
    &&& same_header(now[segment as int], segs[segment as int])
    &&& now[segment as int].commits@ == segs[segment as int].commits@.push(now[segment as int].commits@[place as int])
    &&& is_commit_of(now[segment as int].commits@[place as int], info, names, segs[segment as int].ref_name)
    &&& now[segment as int].commits@[place as int].flags == last_flags(segs, segment as int).joined(flags)
    &&& if n > 0 && crate::graph::queue::is_exhausted(count as int, max) {
        &&& r == Advance::HardLimit
        &&& after.graph.hard_limit_hit
        &&& after.next.count == count
        &&& after.next.items@ == before.next.items@ + parents
    } else {
        &&& after.next.count == crate::graph::queue::counted_by(before.next.count, n + m)
        &&& if m > 0 && crate::graph::queue::is_exhausted(after.next.count as int, max) {
            &&& r == Advance::HardLimit
            &&& after.graph.hard_limit_hit
            &&& after.next.items@ == before.next.items@ + parents + later.take(m)
        } else {
            &&& match r {
                Advance::Taken { segment: s, commit: c } => s == segment && c == place,
                _ => false,
            }
            &&& after.graph.hard_limit_hit == before.graph.hard_limit_hit
            &&& after.next.items@ == (before.next.items@ + parents + later).filter(
                |item: QueueItem| !crate::graph::queue::is_done(item),
            )
        }
    }
}

impl Traversal {
    /// Adds the flags `flags` to the commits that come after the place
    /// `from` of the segment `start`, and to the queued commits that go to
    /// their segments. Nothing changes where there is no segment `start`.
    pub fn propagate(&mut self, start: u32, from: usize, flags: CommitFlags)
        requires
            old(self).wf(),
        ensures
            final(self).wf(),
            final(self).graph.edges() == old(self).graph.edges(),
            final(self).graph.entrypoint == old(self).graph.entrypoint,
            final(self).graph.entrypoint_ref == old(self).graph.entrypoint_ref,
            final(self).graph.extra_target == old(self).graph.extra_target,
            final(self).graph.hard_limit_hit == old(self).graph.hard_limit_hit,
            final(self).graph.options == old(self).graph.options,
            final(self).goals == old(self).goals,
            final(self).refs_by_id == old(self).refs_by_id,
            final(self).max_limit == old(self).max_limit,
            final(self).tip == old(self).tip,
            final(self).detached == old(self).detached,
            final(self).seen == old(self).seen,
            final(self).next.count == old(self).next.count,
            final(self).next.max == old(self).next.max,
            grows(old(self).graph.segments(), final(self).graph.segments()),
            final(self).graph.segments().dom() == old(self).graph.segments().dom(),
            old(self).graph.segments().contains_key(start as int) ==> spread(
                old(self).graph.segments(),
                final(self).graph.segments(),
                old(self).graph.edges(),
                start,
                from,
                flags,
            ),
            old(self).graph.segments().contains_key(start as int) ==> final(self).next.items@ == Seq::new(
                old(self).next.items@.len(),
                |k: int| reached_item(old(self).next.items@[k], old(self).graph.edges(), start, flags),
            ),
            !old(self).graph.segments().contains_key(start as int) ==> final(self).next.items@ == old(self).next.items@,
    {
        proof {
            lemma_grows(self.graph.segments(), self.graph.segments(), self.graph.segments());
        }
        let marks = self.graph.reachable_from(start);
        let ids = self.graph.segment_ids();
        let ghost before = self.graph.segments();
        let ghost edges = self.graph.edges();
        let mut k: usize = 0;
        while k < ids.len()
            invariant
                k <= ids.len(),
                self.graph.wf(),
                commits_once(self.graph.segments()),
                before == old(self).graph.segments(),
                edges == old(self).graph.edges(),
                self.graph.edges() == edges,
                self.graph.entrypoint == old(self).graph.entrypoint,
                self.graph.entrypoint_ref == old(self).graph.entrypoint_ref,
                self.graph.extra_target == old(self).graph.extra_target,
                self.graph.hard_limit_hit == old(self).graph.hard_limit_hit,
                self.graph.options == old(self).graph.options,
                self.next == old(self).next,
                self.goals == old(self).goals,
                self.refs_by_id == old(self).refs_by_id,
                self.max_limit == old(self).max_limit,
                self.tip == old(self).tip,
                self.detached == old(self).detached,
                self.seen == old(self).seen,
                lists_nodes(ids@, before),
                forall|s: int| before.contains_key(s) ==> 0 <= s < marks@.len(),
                before.contains_key(start as int) ==> marks_reach(marks@, edges, start as int),
                !before.contains_key(start as int) ==> forall|s: int| 0 <= s < marks@.len() ==> !marks@[s],
                grows(before, self.graph.segments()),
                self.graph.segments().dom() == before.dom(),
                forall|j: int|
                    k <= j < ids@.len() ==> self.graph.segments()[(#[trigger] ids@[j]) as int] == before[ids@[j] as int],
                forall|j: int|
                    0 <= j < k ==> if marks@[(#[trigger] ids@[j]) as int] {
                        flags_added(
                            before[ids@[j] as int],
                            self.graph.segments()[ids@[j] as int],
                            if ids@[j] == start {
                                from as int
                            } else {
                                0
                            },
                            flags,
                        )
                    } else {
                        self.graph.segments()[ids@[j] as int] == before[ids@[j] as int]
                    },
            decreases ids.len() - k,
        {
            let id = ids[k];
            let ghost now = self.graph.segments();
            assert(before.contains_key(id as int));
            if marks[id as usize] {
                let first = if id == start { from } else { 0 };
                self.graph.add_flags(id, first, flags);
                proof {
                    lemma_grows(before, now, self.graph.segments());
                    assert forall|j: int| k + 1 <= j < ids@.len() implies self.graph.segments()[(#[trigger] ids@[j]) as int]
                        == before[ids@[j] as int] by {
                        assert(ids@[k as int] < ids@[j]);
                        assert(now.contains_key(ids@[j] as int));
                    }
                    assert forall|j: int| 0 <= j < k implies self.graph.segments()[(#[trigger] ids@[j]) as int] == now[ids@[j] as int] by {
                        assert(ids@[j] < ids@[k as int]);
                        assert(now.contains_key(ids@[j] as int));
                    }
                }
            }
            k += 1;
        }
        self.next.add_flags_where(&marks, flags);
        proof {
            let after = self.graph.segments();
            assert forall|m: int| 0 <= m < self.next.items@.len() implies after.contains_key(
                (#[trigger] self.next.items@[m]).instruction.segment() as int,
            ) by {
                assert(self.next.items@[m] == marked_item(old(self).next.items@[m], marks@, flags));
                assert(before.contains_key(old(self).next.items@[m].instruction.segment() as int));
            }
            if before.contains_key(start as int) {
                assert forall|s: int| #[trigger] before.contains_key(s) implies if reaches(edges, start as int, s) {
                    flags_added(before[s], after[s], if s == start { from as int } else { 0 }, flags)
                } else {
                    after[s] == before[s]
                } by {
                    let j = choose|j: int| 0 <= j < ids@.len() && (#[trigger] ids@[j]) == s;
                    assert(marks@[s] <==> reaches(edges, start as int, s));
                }
            }
            if before.contains_key(start as int) {
                assert forall|m: int| 0 <= m < self.next.items@.len() implies self.next.items@[m] == reached_item(
                    old(self).next.items@[m],
                    edges,
                    start,
                    flags,
                ) by {
                    let s = old(self).next.items@[m].instruction.segment() as int;
                    assert(before.contains_key(s));
                    assert(marks@[s] <==> reaches(edges, start as int, s));
                }
                assert(self.next.items@ =~= Seq::new(
                    old(self).next.items@.len(),
                    |k: int| reached_item(old(self).next.items@[k], edges, start, flags),
                ));
            } else {
                assert(self.next.items@ =~= old(self).next.items@);
            }
        }
    }

    /// Adds a segment without commits, named after the only local branch
    /// among `names`, for the commit `id`, and connects the commit
    /// `src_commit` of the segment `src` with it. Returns its index.
    pub fn connect_new_segment(&mut self, src: u32, src_commit: Option<usize>, names: &Vec<String>, id: ObjectId) -> (r:
        Option<u32>)
        requires
            old(self).wf(),
        ensures
            final(self).wf(),
            final(self).next == old(self).next,
            final(self).goals == old(self).goals,
            final(self).refs_by_id == old(self).refs_by_id,
            final(self).max_limit == old(self).max_limit,
            final(self).tip == old(self).tip,
            final(self).detached == old(self).detached,
            final(self).seen == old(self).seen,
            final(self).graph.entrypoint == old(self).graph.entrypoint,
            final(self).graph.entrypoint_ref == old(self).graph.entrypoint_ref,
            final(self).graph.extra_target == old(self).graph.extra_target,
            final(self).graph.hard_limit_hit == old(self).graph.hard_limit_hit,
            final(self).graph.options == old(self).graph.options,
            grows(old(self).graph.segments(), final(self).graph.segments()),
            forall|k: int| #[trigger]
                old(self).graph.segments().contains_key(k) ==> final(self).graph.segments().contains_key(k) && final(self).graph.segments()[k] == old(self).graph.segments()[k],
            forall|other: ObjectId|
                holds_commit(final(self).graph.segments(), other) <==> holds_commit(
                    old(self).graph.segments(),
                    other,
                ),
            match r {
                Some(index) => {
                    &&& old(self).graph.segments().contains_key(src as int)
                    &&& !old(self).graph.segments().contains_key(index as int)
                    &&& final(self).graph.segments().dom() == old(self).graph.segments().dom().insert(index as int)
                    &&& final(self).graph.segments()[index as int].commits@.len() == 0
                    &&& final(self).graph.segments()[index as int].id == index
                    &&& final(self).graph.segments()[index as int].ref_name == natural_name(names@)
                    &&& final(self).graph.segments()[index as int].metadata is None
                    &&& final(self).graph.segments()[index as int].sibling_segment_id is None
                    &&& exists|e: int| #[trigger]
                        final(self).graph.edges().contains_key(e) && !old(self).graph.edges().contains_key(e) && final(self).graph.edges() == old(self).graph.edges().insert(
                            e,
                            (
                                src as int,
                                index as int,
                                Edge {
                                    src: src_commit,
                                    src_id: old(self).graph.segments()[src as int].id_at(src_commit),
                                    dst: Some(0usize),
                                    dst_id: Some(id),
                                },
                            ),
                        )
                },
                None => !(old(self).graph.segments().contains_key(src as int) && old(self).graph.has_room(1)
                    && old(self).graph.has_edge_room(1)),
            },
            grew_by(old(self).graph, final(self).graph, 1),
    {
        proof {
            lemma_grows(self.graph.segments(), self.graph.segments(), self.graph.segments());
        }
        if self.graph.segment(src).is_none() {
            return None;
        }
        let segment = branch_segment(names);
        let index = match self.graph.insert_segment(segment) {
            Some(index) => index,
            None => {
                return None;
            },
        };
        proof {
            lemma_empty_segment(old(self).graph.segments(), self.graph.segments(), index as int);
            lemma_items_in(self.next.items@, old(self).graph.segments(), self.graph.segments());
        }
        match self.graph.connect_segments_with_ids(src, src_commit, None, index, Some(0), Some(id)) {
            Some(e) => {
                assert(self.graph.edges().contains_key(e as int));
                Some(index)
            },
            None => None,
        }
    }

    /// Deals with a commit that the graph holds already, at the place
    /// `commit` of the segment `segment`: where that is not the first
    /// place the segment is split there, so that the commit starts a
    /// segment; the segment `src`, through which the commit was reached
    /// again, is connected with that segment, and the flags `flags` are
    /// added to the commit and to all that comes after it, queued commits
    /// too. The graph is full only where it has no room for one more
    /// segment and two more edges.
    pub fn reencounter(&mut self, segment: u32, commit: usize, flags: CommitFlags, src: u32) -> (r: Advance)
        requires
            old(self).wf(),
            commit_at(old(self).graph.segments(), segment as int, commit as int),
            old(self).graph.segments().contains_key(src as int),
        ensures
            final(self).wf(),
            grows(old(self).graph.segments(), final(self).graph.segments()),
            forall|k: int| old(self).graph.segments().contains_key(k) ==> final(self).graph.segments().contains_key(k),
            final(self).goals == old(self).goals,
            final(self).refs_by_id == old(self).refs_by_id,
            final(self).max_limit == old(self).max_limit,
            final(self).tip == old(self).tip,
            final(self).detached == old(self).detached,
            final(self).seen == old(self).seen,
            final(self).graph.hard_limit_hit == old(self).graph.hard_limit_hit,
            final(self).graph.options == old(self).graph.options,
            final(self).graph.entrypoint == old(self).graph.entrypoint,
            final(self).graph.entrypoint_ref == old(self).graph.entrypoint_ref,
            final(self).graph.extra_target == old(self).graph.extra_target,
            final(self).next.count == old(self).next.count,
            final(self).next.max == old(self).next.max,
            final(self).next.items@.len() == old(self).next.items@.len(),
            r is Met || r == Advance::Full,
            old(self).graph.has_room(1) && old(self).graph.has_edge_room(2) ==> r is Met,
            match r {
                Advance::Met { segment: target } => {
                    &&& met_again(old(self).graph, final(self).graph, segment, commit, flags, src, target)
                    &&& final(self).next.items@ == items_met(
                        old(self).next.items@,
                        final(self).graph.edges(),
                        segment,
                        commit,
                        target,
                        flags,
                    )
                    &&& commit_at(final(self).graph.segments(), target as int, 0)
                    &&& final(self).graph.segments()[target as int].commits@[0].id == old(self).graph.segments()[segment as int].commits@[commit as int].id
                    &&& final(self).graph.segments()[target as int].commits@[0].flags.has(flags)
                },
                _ => true,
            },
    {
        let ghost start = self.graph.segments();
        let ghost before = self.graph;
        let ghost id = start[segment as int].commits@[commit as int].id;
        proof {
            lemma_grows(start, start, start);
        }
        let target = if commit == 0 {
            segment
        } else {
            match self.graph.split_segment(segment, commit) {
                Ok(lower) => {
                    self.next.retarget(segment, lower, commit);
                    proof {
                        assert forall|k: int| 0 <= k < self.next.items@.len() implies self.graph.segments().contains_key(
                            (#[trigger] self.next.items@[k]).instruction.segment() as int,
                        ) by {
                            assert(self.next.items@[k] == retargeted(old(self).next.items@[k], segment, lower, commit));
                            assert(start.contains_key(old(self).next.items@[k].instruction.segment() as int));
                            assert(self.graph.segments().contains_key(lower as int));
                        }
                    }
                    lower
                },
                Err(_) => {
                    proof {
                        lemma_items_in(self.next.items@, start, self.graph.segments());
                    }
                    return Advance::Full;
                },
            }
        };
        let ghost halves = self.graph;
        let ghost halves_items = self.next.items@;
        assert(halved(before, halves, segment, commit, target));
        assert(commit_at(halves.segments(), target as int, 0) && halves.segments()[target as int].commits@[0].id == id) by {
            if commit != 0 {
                assert(split_at(start, halves.segments(), segment, target, commit));
                assert(halves.segments()[target as int].commits@ == start[segment as int].commits@.skip(commit as int));
            }
        }
        if src != target {
            let last = match self.graph.segment(src) {
                Some(found) => found.last_commit_index(),
                None => None,
            };
            match self.graph.connect_segments(src, last, target, Some(0)) {
                Some(e) => {
                    assert(self.graph.edges().contains_key(e as int));
                },
                None => {
                    return Advance::Full;
                },
            }
        }
        let ghost linked = self.graph;
        self.propagate(target, 0, flags);
        proof {
            let after = self.graph.segments();
            lemma_grows(start, linked.segments(), after);
            assert(linked.segments().contains_key(target as int));
            let walk = seq![target as int];
            assert(reaches(self.graph.edges(), target as int, target as int)) by {
                assert(crate::graph::reach::is_walk(self.graph.edges(), walk) && walk[0] == target && walk.last() == target);
            }
            assert(flags_added(linked.segments()[target as int], after[target as int], 0, flags));
            assert(flagged(linked.segments()[target as int].commits@[0], after[target as int].commits@[0], flags));
            assert(commit_at(after, target as int, 0));
            let had = linked.segments()[target as int].commits@[0].flags;
            assert(had.joined(flags).has(flags)) by {
                let a = had.bits;
                let b = flags.bits;
                assert((a | b) & b == b) by (bit_vector);
            }
            assert(joined(halves, self.graph, src, target, flags));
            assert(self.next.items@ =~= items_met(
                old(self).next.items@,
                self.graph.edges(),
                segment,
                commit,
                target,
                flags,
            ));
        }
        Advance::Met { segment: target }
    }

    /// Queues the remote-tracking branches `tips` of the local branches
    /// that point at the commit `id`, each in a segment of its own that
    /// bears its name. A branch is left out where it points at `id`
    /// itself, or at a commit that is queued or held.
    ///
    /// So that the two sides find each other, `id` becomes a goal of each
    /// lane that starts at such a branch, and the tip of the branch a goal
    /// of the lane of `id`. Given back are the items to queue once the
    /// commit is placed, the flag of `id` as a goal, and the flags of the
    /// tips as goals. `None` where the graph is full.
    pub fn queue_remote_tips(&mut self, id: ObjectId, tips: &Vec<RemoteTip>) -> (r: Option<
        (Vec<QueueItem>, CommitFlags, CommitFlags),
    >)
        requires
            old(self).wf(),
        ensures
            final(self).wf(),
            same_but_segments(*old(self), *final(self)),
            grows(old(self).graph.segments(), final(self).graph.segments()),
            forall|k: int| #[trigger]
                old(self).graph.segments().contains_key(k) ==> final(self).graph.segments().contains_key(k) && final(self).graph.segments()[k] == old(self).graph.segments()[k],
            forall|other: ObjectId|
                holds_commit(final(self).graph.segments(), other) <==> holds_commit(
                    old(self).graph.segments(),
                    other,
                ),
            match r {
                Some((later, own, sought)) => {
                    &&& remotes_queued(*old(self), *final(self), id, tips@, later@, own, sought)
                    &&& items_in(later@, final(self).graph.segments())
                },
                None => tips@.len() > 0 && !old(self).graph.has_room(tips@.len() as int),
            },
            grew_by(old(self).graph, final(self).graph, tips@.len() as int),
            goals_grew_by(old(self).goals@, final(self).goals@, 2 * tips@.len() as int),
    {
        let mut later: Vec<QueueItem> = Vec::new();
        let mut own = CommitFlags::empty();
        let mut sought = CommitFlags::empty();
        let ghost start = self.graph.segments();
        proof {
            lemma_grows(start, start, start);
            assert(tips@.take(0) =~= Seq::<RemoteTip>::empty());
            assert(later@ =~= Seq::<QueueItem>::empty());
        }
        let mut t: usize = 0;
        while t < tips.len()
            invariant
                t <= tips.len(),
                self.wf(),
                start == old(self).graph.segments(),
                same_but_segments(*old(self), *self),
                grows(start, self.graph.segments()),
                forall|k: int| #[trigger]
                    start.contains_key(k) ==> self.graph.segments().contains_key(k) && self.graph.segments()[k]
                        == start[k],
                forall|other: ObjectId| holds_commit(self.graph.segments(), other) <==> holds_commit(start, other),
                items_in(later@, self.graph.segments()),
                grew_by(old(self).graph, self.graph, t as int),
                goals_grew_by(old(self).goals@, self.goals@, 2 * t as int),
                remotes_queued(*old(self), *self, id, tips@.take(t as int), later@, own, sought),
            decreases tips.len() - t,
        {
            let tip = &tips[t];
            let ghost now = self.graph.segments();
            let ghost mid = *self;
            let ghost listed = later@;
            let ghost own0 = own;
            let ghost sought0 = sought;
            let known = tip.id.same(&id) || self.next.is_queued(&tip.id) || self.graph.locate(&tip.id).is_some()
                || holds_item(&later, &tip.id);
            assert(known == remote_known(mid, listed, id, tip.id));
            if !known {
                let segment = match self.graph.insert_segment(Segment::new(Some(tip.ref_name.clone()))) {
                    Some(segment) => segment,
                    None => {
                        return None;
                    },
                };
                proof {
                    assert forall|k: int| #[trigger] start.contains_key(k) implies self.graph.segments().contains_key(
                        k,
                    ) && self.graph.segments()[k] == start[k] by {
                        assert(now.contains_key(k) && now[k] == start[k]);
                    }
                    lemma_empty_segment(now, self.graph.segments(), segment as int);
                    lemma_grows(start, now, self.graph.segments());
                    lemma_items_in(self.next.items@, now, self.graph.segments());
                    lemma_items_in(later@, now, self.graph.segments());
                }
                let local_goal = self.goals.flag_or_none(id);
                let remote_goal = self.goals.flag_or_none(tip.id);
                later.push(
                    QueueItem {
                        id: tip.id,
                        flags: remote_goal,
                        instruction: Instruction::CollectCommit { into: segment },
                        limit: self.max_limit.additional_goal(local_goal).without_allowance(),
                    },
                );
                own = own.union(local_goal);
                sought = sought.union(remote_goal);
                proof {
                    assert forall|k: int| 0 <= k < later@.len() implies self.graph.segments().contains_key(
                        (#[trigger] later@[k]).instruction.segment() as int,
                    ) by {
                        if k < listed.len() {
                            assert(later@[k] == listed[k]);
                        }
                    }
                    assert(with_segment(now, self.graph.segments(), segment, Some(tip.ref_name), None, None));
                }
            }
            proof {
                assert(remote_queued(mid, listed, own0, sought0, id, tips@[t as int], *self, later@, own, sought));
                assert(tips@.take(t + 1).drop_last() =~= tips@.take(t as int));
                assert(tips@.take(t + 1).last() == tips@[t as int]);
                let upto = tips@.take(t + 1);
                assert(remotes_queued(*old(self), mid, id, upto.drop_last(), listed, own0, sought0) && remote_queued(
                    mid,
                    listed,
                    own0,
                    sought0,
                    id,
                    upto.last(),
                    *self,
                    later@,
                    own,
                    sought,
                ));
                assert(upto.len() > 0);
                assert(remotes_queued(*old(self), *self, id, upto, later@, own, sought));
            }
            t += 1;
        }
        proof {
            assert(tips@.take(t as int) =~= tips@);
        }
        Some((later, own, sought))
    }

    /// Finds the segment for a commit that the graph does not hold, with
    /// the references `names`, which was queued as `item`: the segment it
    /// was queued for, or a new segment below that one where the commit
    /// was queued as one of several parents, or where a local branch names
    /// it and the segment has commits. `None` where the graph is full.
    pub fn place(&mut self, item: QueueItem, names: &Vec<String>) -> (r: Option<u32>)
        requires
            old(self).wf(),
            old(self).graph.segments().contains_key(item.instruction.segment() as int),
        ensures
            final(self).wf(),
            final(self).next == old(self).next,
            final(self).goals == old(self).goals,
            final(self).refs_by_id == old(self).refs_by_id,
            final(self).max_limit == old(self).max_limit,
            final(self).tip == old(self).tip,
            final(self).detached == old(self).detached,
            final(self).seen == old(self).seen,
            final(self).graph.entrypoint == old(self).graph.entrypoint,
            final(self).graph.entrypoint_ref == old(self).graph.entrypoint_ref,
            final(self).graph.extra_target == old(self).graph.extra_target,
            final(self).graph.hard_limit_hit == old(self).graph.hard_limit_hit,
            final(self).graph.options == old(self).graph.options,
            grows(old(self).graph.segments(), final(self).graph.segments()),
            forall|k: int| #[trigger]
                old(self).graph.segments().contains_key(k) ==> final(self).graph.segments().contains_key(k) && final(self).graph.segments()[k] == old(self).graph.segments()[k],
            forall|other: ObjectId|
                holds_commit(final(self).graph.segments(), other) <==> holds_commit(
                    old(self).graph.segments(),
                    other,
                ),
            match r {
                Some(s) => placed(old(self).graph, final(self).graph, item, names@, s),
                None => starts_segment(old(self).graph.segments(), item.instruction, names@) && !(old(self).graph.has_room(1)
                    && old(self).graph.has_edge_room(1)),
            },
            grew_by(old(self).graph, final(self).graph, 1),
    {
        proof {
            lemma_grows(self.graph.segments(), self.graph.segments(), self.graph.segments());
        }
        let src = item.instruction.segment_idx();
        let starts = match item.instruction {
            Instruction::CollectCommit { into } => match self.graph.segment(into) {
                Some(found) => found.commits.len() > 0 && find_only_local(names).is_some(),
                None => false,
            },
            Instruction::ConnectNewSegment { .. } => true,
        };
        if !starts {
            return Some(src);
        }
        let above = match item.instruction {
            Instruction::CollectCommit { into } => match self.graph.segment(into) {
                Some(found) => found.last_commit_index(),
                None => None,
            },
            Instruction::ConnectNewSegment { at_commit, .. } => Some(at_commit),
        };
        self.connect_new_segment(src, above, names, item.id)
    }

    /// Puts the commit `info` at the end of the segment `segment`, queues
    /// its parents and then the items `later`, and drops the lanes that
    /// have nothing left to find.
    ///
    /// The commit gets the flags `flags` and those of the commit before
    /// it; its references are `names` but the name of the segment. Where
    /// a push exhausts the queue the traversal is over, with the commit in
    /// the graph.
    pub fn settle(
        &mut self,
        segment: u32,
        info: CommitInfo,
        names: Vec<String>,
        flags: CommitFlags,
        limit: Limit,
        later: Vec<QueueItem>,
    ) -> (r: Advance)
        requires
            old(self).wf(),
            old(self).graph.segments().contains_key(segment as int),
            !holds_commit(old(self).graph.segments(), info.id),
            items_in(later@, old(self).graph.segments()),
        ensures
            final(self).wf(),
            grows(old(self).graph.segments(), final(self).graph.segments()),
            settled(*old(self), *final(self), segment, info, names@, flags, limit, later@, r),
    {
        let ghost start = self.graph.segments();
        proof {
            lemma_grows(start, start, start);
        }
        let (commit_idx, last, own_name) = match self.graph.segment(segment) {
            Some(found) => (
                found.commits.len(),
                if found.commits.len() > 0 {
                    found.commits[found.commits.len() - 1].flags
                } else {
                    CommitFlags::empty()
                },
                clone_name(&found.ref_name),
            ),
            None => (0, CommitFlags::empty(), None),
        };
        let ghost queued = self.next.items@;
        let hit = self.next.queue_parents(&info.parent_ids, flags, segment, commit_idx, limit);
        proof {
            assert forall|k: int| 0 <= k < self.next.items@.len() implies start.contains_key(
                (#[trigger] self.next.items@[k]).instruction.segment() as int,
            ) by {
                if k < queued.len() {
                    assert(self.next.items@[k] == queued[k]);
                }
            }
        }
        let ghost with_parents = self.next.items@;
        let ghost count_with_parents = self.next.count;
        let all = last.union(flags);
        let refs = other_names(names, &own_name);
        let ghost made = Commit { id: info.id, parent_ids: info.parent_ids, flags: all, refs };
        self.graph.push_commit(segment, Commit { id: info.id, parent_ids: info.parent_ids, flags: all, refs });
        proof {
            lemma_items_in(self.next.items@, start, self.graph.segments());
            lemma_items_in(later@, start, self.graph.segments());
            assert(last == last_flags(start, segment as int));
        }
        let ghost pushed = self.graph.segments();
        proof {
            assert(pushed[segment as int].commits@[commit_idx as int] == made);
            assert(is_commit_of(made, info, names@, start[segment as int].ref_name));
        }
        if hit {
            let ghost before = self.graph;
            self.graph.hard_limit_hit = true;
            proof {
                lemma_keeps_wf(before, self.graph);
            }
            return Advance::HardLimit;
        }
        let done = self.next.push_all(&later);
        proof {
            let m = crate::graph::queue::pushes(count_with_parents, self.next.max, later@.len() as int);
            let n = parents_pushed(*old(self), info, flags, limit);
            crate::graph::queue::lemma_counted_twice(old(self).next.count, n, m);
            assert forall|k: int| 0 <= k < self.next.items@.len() implies self.graph.segments().contains_key(
                (#[trigger] self.next.items@[k]).instruction.segment() as int,
            ) by {
                if k < with_parents.len() {
                    assert(self.next.items@[k] == with_parents[k]);
                } else {
                    assert(self.next.items@[k] == later@[k - with_parents.len()]);
                }
            }
            assert(pushed[segment as int].commits@[commit_idx as int] == made);
            assert(is_commit_of(made, info, names@, start[segment as int].ref_name));
        }
        if done {
            let ghost before = self.graph;
            self.graph.hard_limit_hit = true;
            proof {
                lemma_keeps_wf(before, self.graph);
            }
            return Advance::HardLimit;
        }
        let ghost queued = self.next.items@;
        self.next.prune_integrated_tips();
        proof {
            let stays = |item: QueueItem| !crate::graph::queue::is_done(item);
            assert forall|m: int| 0 <= m < self.next.items@.len() implies self.graph.segments().contains_key(
                (#[trigger] self.next.items@[m]).instruction.segment() as int,
            ) by {
                lemma_filtered_from(queued, stays, m);
                let j = choose|j: int| 0 <= j < queued.len() && queued[j] == self.next.items@[m];
                assert(self.graph.segments().contains_key(queued[j].instruction.segment() as int));
            }
            let m = crate::graph::queue::pushes(count_with_parents, self.next.max, later@.len() as int);
            crate::graph::queue::lemma_pushes_bound(count_with_parents, self.next.max, later@.len() as int);
            assert(m == later@.len());
            assert(later@.take(m) =~= later@);
        }
        Advance::Taken { segment, commit: commit_idx }
    }

    /// The segment that the commit `id` was put into when it was taken, if
    /// it was taken.
    pub fn taken_into(&self, id: &ObjectId) -> (r: Option<u32>)
        ensures
            match r {
                Some(s) => seen_ids(self.seen).contains_key(id@) && seen_ids(self.seen)[id@] == s as int,
                None => !seen_ids(self.seen).contains_key(id@),
            },
    {
        seen_get(&self.seen, id)
    }

    /// Where the commit `id` stands: its segment and its place in it. The
    /// segment that the commit was put into when it was taken is looked
    /// at first, the others only where it holds the commit no more.
    pub fn locate(&self, id: &ObjectId) -> (r: Option<(u32, usize)>)
        ensures
            match r {
                Some((s, c)) => commit_at(self.graph.segments(), s as int, c as int) && self.graph.segments()[s as int].commits@[c as int].id
                    == *id,
                None => !holds_commit(self.graph.segments(), *id),
            },
    {
        match seen_get(&self.seen, id) {
            Some(s) => match self.graph.segment(s) {
                Some(found) => match found.commit_index_of(id) {
                    Some(c) => {
                        return Some((s, c));
                    },
                    None => {},
                },
                None => {},
            },
            None => {},
        }
        self.graph.locate(id)
    }

    /// Takes the commit `info`, which the graph does not hold and which
    /// was queued as `item`: see [`Self::advance`].
    pub fn collect(&mut self, item: QueueItem, info: CommitInfo) -> (r: Advance)
        requires
            old(self).wf(),
            old(self).graph.segments().contains_key(item.instruction.segment() as int),
            !holds_commit(old(self).graph.segments(), info.id),
            item.id == info.id,
        ensures
            final(self).wf(),
            grows(old(self).graph.segments(), final(self).graph.segments()),
            final(self).tip == old(self).tip,
            final(self).detached == old(self).detached,
            final(self).max_limit == old(self).max_limit,
            final(self).next.max == old(self).next.max,
            final(self).graph.options == old(self).graph.options,
            final(self).graph.entrypoint == old(self).graph.entrypoint,
            final(self).graph.entrypoint_ref == old(self).graph.entrypoint_ref,
            final(self).graph.extra_target == old(self).graph.extra_target,
            r is Taken || r == Advance::HardLimit || r == Advance::Full || r == Advance::TooManyGoals,
            r == Advance::HardLimit ==> final(self).graph.hard_limit_hit,
            r != Advance::HardLimit ==> final(self).graph.hard_limit_hit == old(self).graph.hard_limit_hit,
            r is Taken ==> holds_flagged(final(self).graph.segments(), info.id, item.flags),
            match r {
                Advance::Taken { segment: s, commit: c } => taken(*old(self), *final(self), item, info, s, c),
                Advance::HardLimit => cut_short(*old(self), *final(self), item, info),
                Advance::TooManyGoals => ran_out(*old(self), *final(self), item, info) && (old(self).goals.missed
                    || old(self).goals.ids@.len() + 2 * info.remote_tips@.len() > MAX_GOALS),
                _ => (info.remote_tips@.len() > 0 || starts_segment(
                    old(self).graph.segments(),
                    item.instruction,
                    names_of(old(self).refs_by_id@, info.id),
                )) && !(old(self).graph.has_room(1 + info.remote_tips@.len() as int) && old(self).graph.has_edge_room(1)),
            },
    {
        let ghost start = self.graph.segments();
        let ghost start_graph = self.graph;
        let mut limit = item.limit;
        if self.graph.options.recharges_at(&item.id) {
            limit.set_but_keep_goal(self.max_limit);
        }
        let src = item.instruction.segment_idx();
        let src_flags = match self.graph.segment(src) {
            Some(found) => {
                if found.commits.len() > 0 {
                    found.commits[found.commits.len() - 1].flags
                } else {
                    CommitFlags::empty()
                }
            },
            None => CommitFlags::empty(),
        };
        let lane = item.flags.union(src_flags);
        let ghost names = names_of(self.refs_by_id@, info.id);
        let taken_names = self.take_refs(&info.id);
        proof {
            lemma_refs_position(old(self).refs_by_id@, info.id);
            assert(taken_names@ =~= names);
        }
        let segment = match self.place(item, &taken_names) {
            Some(segment) => segment,
            None => {
                return Advance::Full;
            },
        };
        seen_insert(&mut self.seen, &item.id, segment);
        let ghost at = *self;
        assert(at.graph.segments().contains_key(segment as int)) by {
            assert(placed(start_graph, at.graph, item, names, segment));
        }
        let (later, own, sought) = match self.queue_remote_tips(info.id, &info.remote_tips) {
            Some(found) => found,
            None => {
                proof {
                    lemma_grows(start, at.graph.segments(), self.graph.segments());
                }
                return Advance::Full;
            },
        };
        let ghost ready = *self;
        proof {
            lemma_grows(start, at.graph.segments(), ready.graph.segments());
        }
        if self.goals.missed {
            proof {
                assert(prepared(*old(self), at, ready, later@, own, sought, item, info, segment));
            }
            return Advance::TooManyGoals;
        }
        let flags_queued = lane.union(own);
        let limit_queued = limit.additional_goal(sought);
        let ghost given = info;
        let ghost queued_later = later@;
        let r = self.settle(segment, info, taken_names, flags_queued, limit_queued, later);
        proof {
            let after = self.graph.segments();
            lemma_grows(start, ready.graph.segments(), after);
            assert(limit == recharged(item, old(self).graph.options, old(self).max_limit));
            assert(collected(*old(self), at, ready, *self, queued_later, own, sought, item, given, segment, r));
            match r {
                Advance::Taken { segment: s, commit: c } => {
                    let made = after[s as int].commits@[c as int];
                    let had = last_flags(ready.graph.segments(), s as int);
                    assert(made.flags.has(item.flags)) by {
                        let l = had.bits;
                        let a = item.flags.bits;
                        let b = src_flags.bits;
                        let o = own.bits;
                        assert((l | ((a | b) | o)) & a == a) by (bit_vector);
                    }
                    assert(commit_at(after, s as int, c as int));
                },
                _ => {},
            }
        }
        r
    }

    /// Takes the commit at the front of the queue, which `info` must be.
    ///
    /// A commit that the graph holds is met again: see
    /// [`Self::reencounter`]. Any other commit is put behind the last
    /// commit of the segment it was queued for; it starts a segment of its
    /// own below that one where it was queued as one of several parents,
    /// or where a local branch names it and the segment has commits. Its
    /// flags are those it was queued with and those of the commit before
    /// it. Its parents are queued behind it, unless its lane must stop,
    /// and so are the remote-tracking branches of its local branches.
    /// Then the lanes that have nothing left to find are dropped.
    ///
    /// The traversal is over where nothing is queued, and where a push
    /// exhausts the queue. The graph is full only where the step needs a
    /// new segment or a new edge and there is no room: it has room while
    /// it can take one more segment for the commit, one for each of its
    /// remote-tracking branches, and two more edges. The traversal is
    /// over too where the remote-tracking branches of the commit ask for
    /// more goals than there are flags left, two for each branch.
    ///
    /// No commit loses a flag, and in each segment each commit goes on to
    /// have the flags of the commit before it.
    pub fn advance(&mut self, info: CommitInfo) -> (r: Advance)
        requires
            old(self).wf(),
        ensures
            final(self).wf(),
            grows(old(self).graph.segments(), final(self).graph.segments()),
            final(self).tip == old(self).tip,
            final(self).detached == old(self).detached,
            final(self).max_limit == old(self).max_limit,
            final(self).next.max == old(self).next.max,
            final(self).graph.options == old(self).graph.options,
            final(self).graph.entrypoint == old(self).graph.entrypoint,
            final(self).graph.entrypoint_ref == old(self).graph.entrypoint_ref,
            final(self).graph.extra_target == old(self).graph.extra_target,
            r == Advance::Idle <==> old(self).next.items@.len() == 0,
            r == Advance::Unexpected <==> old(self).next.items@.len() > 0 && old(self).next.items@[0].id != info.id,
            r == Advance::Idle || r == Advance::Unexpected ==> final(self).graph == old(self).graph && final(self).next
                == old(self).next && final(self).refs_by_id == old(self).refs_by_id && final(self).goals == old(self).goals
                && final(self).seen == old(self).seen,
            r == Advance::HardLimit ==> final(self).graph.hard_limit_hit,
            r != Advance::HardLimit ==> final(self).graph.hard_limit_hit == old(self).graph.hard_limit_hit,
            r is Met ==> holds_commit(old(self).graph.segments(), info.id),
            r is Taken || r == Advance::HardLimit || r == Advance::TooManyGoals ==> !holds_commit(
                old(self).graph.segments(),
                info.id,
            ),
            r == Advance::TooManyGoals ==> old(self).goals.missed || old(self).goals.ids@.len() + 2
                * info.remote_tips@.len() > MAX_GOALS,
            r == Advance::Full ==> holds_commit(old(self).graph.segments(), info.id) || info.remote_tips@.len() > 0
                || starts_segment(
                old(self).graph.segments(),
                old(self).next.items@[0].instruction,
                names_of(old(self).refs_by_id@, info.id),
            ),
            old(self).graph.has_room(1 + info.remote_tips@.len() as int) && old(self).graph.has_edge_room(2) ==> r
                != Advance::Full,
            (r is Taken || r is Met) && info.remote_tips@.len() == 0 && covers(*old(self)) ==> covers(*final(self)),
            r is Taken || r is Met ==> holds_flagged(final(self).graph.segments(), info.id, old(self).next.items@[0].flags),
            r is Met || (r is Taken && info.remote_tips@.len() == 0) ==> keeps_roots(old(self).graph, final(self).graph),
            (r is Taken || r is Met || r == Advance::HardLimit) && flags_descend(old(self).graph.segments())
                ==> flags_descend(final(self).graph.segments()),
            match r {
                Advance::Taken { segment: s, .. } => keeps_roots_with(
                    old(self).graph,
                    final(self).graph,
                    (final(self).graph.segments().dom() - old(self).graph.segments().dom()).remove(s as int),
                ),
                _ => true,
            },
            match r {
                Advance::Taken { segment: s, commit: c } => {
                    let item = old(self).next.items@[0];
                    &&& !holds_commit(old(self).graph.segments(), info.id)
                    &&& exists|popped: Traversal| #[trigger]
                        is_popped(*old(self), popped) && taken(popped, *final(self), item, info, s, c)
                },
                Advance::HardLimit => exists|popped: Traversal| #[trigger]
                    is_popped(*old(self), popped) && cut_short(popped, *final(self), old(self).next.items@[0], info),
                Advance::TooManyGoals => exists|popped: Traversal| #[trigger]
                    is_popped(*old(self), popped) && ran_out(popped, *final(self), old(self).next.items@[0], info),
                Advance::Met { segment: target } => {
                    let item = old(self).next.items@[0];
                    let before = old(self).graph.segments();
                    let lane = item.flags.joined(last_flags(before, item.instruction.segment() as int));
                    &&& final(self).refs_by_id == old(self).refs_by_id
                    &&& final(self).goals == old(self).goals
                    &&& final(self).seen == old(self).seen
                    &&& final(self).next.count == old(self).next.count
                    &&& commit_at(final(self).graph.segments(), target as int, 0)
                    &&& final(self).graph.segments()[target as int].commits@[0].id == info.id
                    &&& final(self).graph.segments()[target as int].commits@[0].flags.has(item.flags)
                    &&& exists|s: int, c: int| #[trigger]
                        commit_at(before, s, c) && before[s].commits@[c].id == info.id && met_again(
                            old(self).graph,
                            final(self).graph,
                            s as u32,
                            c as usize,
                            lane,
                            item.instruction.segment(),
                            target,
                        ) && final(self).next.items@ == items_met(
                            old(self).next.items@.drop_first(),
                            final(self).graph.edges(),
                            s as u32,
                            c as usize,
                            target,
                            lane,
                        )
                },
                _ => true,
            },
    {
        let ghost start = self.graph.segments();
        proof {
            lemma_grows(start, start, start);
        }
        if self.next.items.len() == 0 {
            return Advance::Idle;
        }
        if !self.next.items[0].id.same(&info.id) {
            return Advance::Unexpected;
        }
        let item = match self.next.pop_front() {
            Some(item) => item,
            None => {
                return Advance::Idle;
            },
        };
        proof {
            assert forall|k: int| 0 <= k < self.next.items@.len() implies start.contains_key(
                (#[trigger] self.next.items@[k]).instruction.segment() as int,
            ) by {
                assert(self.next.items@[k] == old(self).next.items@[k + 1]);
            }
            assert(start.contains_key(old(self).next.items@[0].instruction.segment() as int));
        }
        let ghost popped = *self;
        assert(is_popped(*old(self), popped));
        match self.locate(&info.id) {
            Some((segment, commit)) => {
                let src = item.instruction.segment_idx();
                let src_flags = match self.graph.segment(src) {
                    Some(found) => {
                        if found.commits.len() > 0 {
                            found.commits[found.commits.len() - 1].flags
                        } else {
                            CommitFlags::empty()
                        }
                    },
                    None => CommitFlags::empty(),
                };
                let lane = item.flags.union(src_flags);
                let met = self.reencounter(segment, commit, lane, src);
                proof {
                    match met {
                        Advance::Met { segment: target } => {
                            let after = self.graph.segments();
                            lemma_flags_order(after[target as int].commits@[0].flags, lane, item.flags);
                            assert(commit_at(start, segment as int, commit as int));
                            assert(commit_at(after, target as int, 0));
                            if flags_descend(start) {
                                lemma_descend_met(old(self).graph, self.graph, segment, commit, lane, src, target);
                            }
                            assert forall|roots: Set<int>| #[trigger]
                                rooted(start.dom(), old(self).graph.edges(), roots) implies rooted(
                                after.dom(),
                                self.graph.edges(),
                                roots,
                            ) by {
                                lemma_rooted_met(old(self).graph, self.graph, segment, commit, lane, src, target, roots);
                            }
                            if covers(*old(self)) {
                                lemma_met_covers(*old(self), *self, info, segment, commit, target);
                            }
                        },
                        _ => {},
                    }
                }
                met
            },
            None => {
                let ghost given = info;
                let r = self.collect(item, info);
                proof {
                    match r {
                        Advance::HardLimit => {
                            if flags_descend(start) {
                                lemma_descend_cut_short(popped, *self, item, given);
                            }
                        },
                        Advance::Taken { segment: s, commit: c } => {
                            if flags_descend(start) {
                                lemma_descend_taken(popped, *self, item, given, s, c);
                            }
                            assert forall|roots: Set<int>| #[trigger]
                                rooted(start.dom(), old(self).graph.edges(), roots) implies rooted(
                                self.graph.segments().dom(),
                                self.graph.edges(),
                                roots + (self.graph.segments().dom() - start.dom()).remove(s as int),
                            ) by {
                                lemma_rooted_taken_with(popped, *self, item, given, s, c, roots);
                            }
                            if given.remote_tips@.len() == 0 {
                                assert forall|roots: Set<int>| #[trigger]
                                    rooted(start.dom(), old(self).graph.edges(), roots) implies rooted(
                                    self.graph.segments().dom(),
                                    self.graph.edges(),
                                    roots,
                                ) by {
                                    lemma_rooted_taken(popped, *self, item, given, s, c, roots);
                                }
                            }
                            if covers(*old(self)) && given.remote_tips@.len() == 0 {
                                lemma_taken_covers(*old(self), popped, *self, given, s, c);
                            }
                        },
                        _ => {},
                    }
                }
                r
            },
        }
    }
}

/// What is left of a sequence comes from the sequence.
pub proof fn lemma_filtered_from(s: Seq<QueueItem>, pred: spec_fn(QueueItem) -> bool, i: int)
    requires
        0 <= i < s.filter(pred).len(),
    ensures
        s.contains(s.filter(pred)[i]),
    decreases s.len(),
{
    reveal(Seq::filter);
    if s.len() > 0 {
        let front = s.drop_last().filter(pred);
        if i < front.len() {
            lemma_filtered_from(s.drop_last(), pred, i);
            let k = choose|k: int| 0 <= k < s.drop_last().len() && s.drop_last()[k] == front[i];
            assert(s[k] == front[i]);
        } else {
            assert(s[s.len() - 1] == s.filter(pred)[i]);
        }
    }
}

/// Whether one of `items` is for the commit `id`.
pub fn holds_item(items: &Vec<QueueItem>, id: &ObjectId) -> (r: bool)
    ensures
        r == awaits(items@, *id),
{
    let mut k: usize = 0;
    while k < items.len()
        invariant
            k <= items.len(),
            forall|m: int| 0 <= m < k ==> (#[trigger] items@[m]).id != *id,
        decreases items.len() - k,
    {
        if items[k].id.same(id) {
            return true;
        }
        k += 1;
    }
    false
}

/// The names but `own`, in their order.
pub open spec fn names_but(names: Seq<String>, own: Option<String>) -> Seq<String> {
    names.filter(|name: String| !(own is Some && own->0@ == name@))
}

/// The references of a commit but the one that names its segment.
pub fn other_names(names: Vec<String>, own: &Option<String>) -> (r: Vec<String>)
    ensures
        r@ == names_but(names@, *own),
{
    let mut kept: Vec<String> = Vec::new();
    let ghost all = names@;
    let ghost stays = |name: String| !(*own is Some && own->0@ == name@);
    proof {
        reveal(Seq::filter);
    }
    for name in it: names
        invariant
            it.seq() == all,
            stays == |name: String| !(*own is Some && own->0@ == name@),
            kept@ == all.take(it.index() as int).filter(stays),
    {
        proof {
            reveal(Seq::filter);
            assert(all.take(it.index() + 1).drop_last() =~= all.take(it.index() as int));
        }
        let is_own = match own {
            Some(o) => *o == name,
            None => false,
        };
        if !is_own {
            kept.push(name);
        }
    }
    assert(all.take(all.len() as int) =~= all);
    kept
}

} // verus!
