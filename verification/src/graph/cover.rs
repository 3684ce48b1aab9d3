//! What a traversal reaches when nothing limits it: with a commit, the
//! graph comes to hold the parents of the commit, and so every commit that
//! can be reached from the one that the traversal started from.

use vstd::prelude::*;

use crate::graph::arena::{commit_at, grows, holds_commit, split_at};
use crate::graph::flags::{CommitFlags, NOT_IN_REMOTE};
use crate::graph::init::{Advance, CommitInfo, Traversal};
use crate::graph::walk::{
    collected, halved, is_popped, items_met, joined, met_again, placed, recharged, remotes_queued, settled, taken,
};
use crate::graph::limit::Limit;
use crate::graph::post::same_commits;
use crate::graph::queue::{awaits, counted, is_done, parent_items, pushes, QueueItem};
use crate::graph::segment::Segment;
use crate::object_id::ObjectId;

verus! {

/// Whether the graph holds the commit `id`, or the commit is queued.
pub open spec fn is_pending(t: Traversal, id: ObjectId) -> bool {
    holds_commit(t.graph.segments(), id) || awaits(t.next.items@, id)
}

/// Whether the lane of `item` never stops by itself: it has no limit,
/// and its commits are not in a remote.
pub open spec fn is_free(item: QueueItem) -> bool {
    item.limit.allowance is None && item.flags.has(CommitFlags { bits: NOT_IN_REMOTE })
}

/// Whether nothing limits the traversal: neither the queue nor a lane has
/// a limit, and the commits of each lane are not in a remote.
pub open spec fn is_unlimited(t: Traversal) -> bool {
    &&& t.next.max is None
    &&& t.max_limit.allowance is None
    &&& forall|k: int| 0 <= k < t.next.items@.len() ==> is_free(#[trigger] t.next.items@[k])
}

/// Whether there is a commit at the place `c` of the segment `s` with a
/// parent number `p`.
pub open spec fn parent_at(segments: Map<int, Segment>, s: int, c: int, p: int) -> bool {
    commit_at(segments, s, c) && 0 <= p < segments[s].commits@[c].parent_ids@.len()
}

/// Whether the graph holds a commit `child` that lists `parent` as a parent.
pub open spec fn is_parent(segments: Map<int, Segment>, child: ObjectId, parent: ObjectId) -> bool {
    exists|s: int, c: int, p: int| #[trigger]
        parent_at(segments, s, c, p) && segments[s].commits@[c].id == child && segments[s].commits@[c].parent_ids@[p]
            == parent
}

/// Whether each parent of each commit of the graph is in the graph or queued.
pub open spec fn follows_parents(t: Traversal) -> bool {
    forall|s: int, c: int, p: int| #[trigger]
        parent_at(t.graph.segments(), s, c, p) ==> is_pending(t, t.graph.segments()[s].commits@[c].parent_ids@[p])
}

/// Whether the traversal is on its way to every commit that can be
/// reached from the one it started from: nothing limits it, that commit
/// is in the graph or queued, and so is each parent of each commit of the
/// graph.
pub open spec fn covers(t: Traversal) -> bool {
    &&& is_unlimited(t)
    &&& is_pending(t, t.tip)
    &&& follows_parents(t)
}

/// Whether the graph holds each parent of each of its commits.
pub open spec fn is_closed(segments: Map<int, Segment>) -> bool {
    forall|s: int, c: int, p: int| #[trigger]
        parent_at(segments, s, c, p) ==> holds_commit(segments, segments[s].commits@[c].parent_ids@[p])
}

/// Whether each commit of `after` is a commit of `before`, with the same parents.
pub open spec fn comes_from(before: Map<int, Segment>, after: Map<int, Segment>) -> bool {
    forall|s: int, c: int| #[trigger]
        commit_at(after, s, c) ==> exists|s1: int, c1: int| #[trigger]
            commit_at(before, s1, c1) && before[s1].commits@[c1].id == after[s].commits@[c].id
                && before[s1].commits@[c1].parent_ids == after[s].commits@[c].parent_ids
}

/// A sequence whose items all pass a filter passes it whole.
pub proof fn lemma_all_pass(s: Seq<QueueItem>, pred: spec_fn(QueueItem) -> bool)
    requires
        forall|k: int| 0 <= k < s.len() ==> pred(#[trigger] s[k]),
    ensures
        s.filter(pred) == s,
    decreases s.len(),
{
    reveal(Seq::filter);
    if s.len() > 0 {
        assert forall|k: int| 0 <= k < s.drop_last().len() implies pred(#[trigger] s.drop_last()[k]) by {
            assert(s.drop_last()[k] == s[k]);
        }
        lemma_all_pass(s.drop_last(), pred);
        assert(s.drop_last().push(s.last()) =~= s);
    }
}

/// A queue without a limit takes all the items that are pushed.
pub proof fn lemma_pushes_all(count: usize, total: int)
    ensures
        pushes(count, None, total) == if total <= 0 {
            0
        } else {
            total
        },
    decreases total,
{
    if total > 0 {
        lemma_pushes_all(counted(count), total - 1);
    }
}

/// A free lane is not dropped, and stays free when flags are added.
pub proof fn lemma_free(item: QueueItem, flags: CommitFlags)
    requires
        is_free(item),
    ensures
        !is_done(item),
        item.flags.joined(flags).has(CommitFlags { bits: NOT_IN_REMOTE }),
{
    let a = item.flags.bits;
    let b = flags.bits;
    assert(a & 1 == 1 ==> a & 7 != 4 && (a | b) & 1 == 1) by (bit_vector);
}

/// What a graph holds, a graph holds that it grew into.
pub proof fn lemma_grows_holds(before: Map<int, Segment>, after: Map<int, Segment>, id: ObjectId)
    requires
        grows(before, after),
        holds_commit(before, id),
    ensures
        holds_commit(after, id),
{
    let (s, c) = choose|s: int, c: int| #[trigger] commit_at(before, s, c) && before[s].commits@[c].id == id;
    assert(commit_at(before, s, c));
}

/// Where a commit that was met again splits its segment and flags are
/// added below it, each commit of the graph comes from the graph before.
pub proof fn lemma_met_comes_from(
    before: crate::graph::arena::Graph,
    after: crate::graph::arena::Graph,
    segment: u32,
    commit: usize,
    flags: CommitFlags,
    src: u32,
    target: u32,
)
    requires
        met_again(before, after, segment, commit, flags, src, target),
    ensures
        comes_from(before.segments(), after.segments()),
{
    let halves = choose|halves: crate::graph::arena::Graph| #[trigger]
        halved(before, halves, segment, commit, target) && joined(halves, after, src, target, flags);
    let first = before.segments();
    let mid = halves.segments();
    let last = after.segments();
    assert forall|s: int, c: int| #[trigger] commit_at(last, s, c) implies exists|s1: int, c1: int| #[trigger]
        commit_at(first, s1, c1) && first[s1].commits@[c1].id == last[s].commits@[c].id && first[s1].commits@[c1].parent_ids
            == last[s].commits@[c].parent_ids by {
        assert(mid.contains_key(s));
        assert(commit_at(mid, s, c));
        assert(mid[s].commits@[c].id == last[s].commits@[c].id && mid[s].commits@[c].parent_ids
            == last[s].commits@[c].parent_ids);
        if commit == 0 {
            assert(commit_at(first, s, c));
        } else {
            assert(split_at(first, mid, segment, target, commit));
            if s == target {
                assert(commit_at(first, segment as int, c + commit));
            } else if s == segment {
                assert(commit_at(first, segment as int, c));
            } else {
                assert(first.contains_key(s));
                assert(commit_at(first, s, c));
            }
        }
    }
}

/// Where the commits stay the same, a graph that holds each parent of
/// each of its commits goes on to hold them.
pub proof fn lemma_same_commits_closed(before: Map<int, Segment>, after: Map<int, Segment>)
    requires
        same_commits(before, after),
        is_closed(before),
    ensures
        is_closed(after),
{
    crate::graph::post::lemma_same_commits(before, after);
    assert forall|s: int, c: int, p: int| #[trigger] parent_at(after, s, c, p) implies holds_commit(
        after,
        after[s].commits@[c].parent_ids@[p],
    ) by {
        assert(before.contains_key(s));
        assert(commit_at(before, s, c));
        assert(parent_at(before, s, c, p));
    }
}

/// A traversal that has just started covers what it starts from where
/// nothing limits it and the commit it started from is queued.
pub proof fn lemma_fresh_covers(t: Traversal)
    requires
        t.is_fresh(),
        is_unlimited(t),
        awaits(t.next.items@, t.tip),
    ensures
        covers(t),
{
}

/// Whether `after` holds the items `rest`, and behind them one free item
/// for each of the commits `parents`.
pub open spec fn queues_parents(rest: Seq<QueueItem>, after: Seq<QueueItem>, parents: Seq<ObjectId>) -> bool {
    &&& after.len() == rest.len() + parents.len()
    &&& forall|k: int| 0 <= k < rest.len() ==> #[trigger] after[k] == rest[k]
    &&& forall|p: int|
        0 <= p < parents.len() ==> (#[trigger] after[rest.len() + p]).id == parents[p] && is_free(after[rest.len() + p])
}

/// Whether `after` holds the commits of `before` where they were, and
/// one more, `id` with the parents `parents`, at the place `c` of the
/// segment `s`.
pub open spec fn adds_commit(
    before: Map<int, Segment>,
    after: Map<int, Segment>,
    s: int,
    c: int,
    id: ObjectId,
    parents: Seq<ObjectId>,
) -> bool {
    &&& commit_at(after, s, c)
    &&& after[s].commits@[c].id == id
    &&& after[s].commits@[c].parent_ids@ == parents
    &&& forall|s2: int, c2: int| #[trigger]
        commit_at(after, s2, c2) && !(s2 == s && c2 == c) ==> commit_at(before, s2, c2) && after[s2].commits@[c2]
            == before[s2].commits@[c2]
}

/// Whether each commit of `after` stands in `before`, at the same place.
pub open spec fn adds_no_commit(before: Map<int, Segment>, after: Map<int, Segment>) -> bool {
    forall|s: int, c: int| #[trigger]
        commit_at(after, s, c) ==> commit_at(before, s, c) && after[s].commits@[c] == before[s].commits@[c]
}

/// To find the segment for a commit adds no commit to the graph.
pub proof fn lemma_placed_adds_no_commit(
    before: crate::graph::arena::Graph,
    after: crate::graph::arena::Graph,
    item: QueueItem,
    names: Seq<String>,
    s: u32,
)
    requires
        placed(before, after, item, names, s),
    ensures
        adds_no_commit(before.segments(), after.segments()),
        after.segments().contains_key(s as int),
        !before.segments().contains_key(s as int) ==> after.segments()[s as int].commits@.len() == 0,
{
    let segs = before.segments();
    let now = after.segments();
    assert forall|s2: int, c2: int| #[trigger] commit_at(now, s2, c2) implies commit_at(segs, s2, c2) && now[s2].commits@[c2]
        == segs[s2].commits@[c2] by {
        if s2 != s {
            assert(segs.contains_key(s2));
        }
    }
}

/// What it is to settle a commit for a free lane where nothing is to be
/// queued behind its parents and the queue has no limit: the commit comes
/// to stand in the graph, and its parents are queued behind the others.
pub proof fn lemma_settled_free(
    before: Traversal,
    after: Traversal,
    s: u32,
    c: usize,
    info: CommitInfo,
    names: Seq<String>,
    flags: CommitFlags,
    limit: Limit,
)
    requires
        settled(before, after, s, info, names, flags, limit, Seq::empty(), Advance::Taken { segment: s, commit: c }),
        before.graph.segments().contains_key(s as int),
        before.next.max is None,
        limit.allowance is None,
        flags.has(CommitFlags { bits: NOT_IN_REMOTE }),
        forall|k: int| 0 <= k < before.next.items@.len() ==> is_free(#[trigger] before.next.items@[k]),
    ensures
        c == before.graph.segments()[s as int].commits@.len(),
        adds_commit(before.graph.segments(), after.graph.segments(), s as int, c as int, info.id, info.parent_ids@),
        queues_parents(before.next.items@, after.next.items@, info.parent_ids@),
{
    let segs = before.graph.segments();
    let now = after.graph.segments();
    let parents = info.parent_ids@;
    let rest = before.next.items@;
    let later = Seq::<QueueItem>::empty();
    let added = parent_items(parents, parents.len() as int, flags, s, c, limit.charged(flags));
    let stays = |item: QueueItem| !is_done(item);
    assert(!limit.is_spent(flags));
    lemma_pushes_all(before.next.count, parents.len() as int);
    lemma_pushes_all(0, 0);
    assert(c == segs[s as int].commits@.len());
    assert(rest + added + later =~= rest + added);
    assert forall|k: int| 0 <= k < (rest + added).len() implies is_free(#[trigger] (rest + added)[k]) && stays(
        (rest + added)[k],
    ) by {
        if k < rest.len() {
            assert((rest + added)[k] == rest[k]);
        } else {
            assert((rest + added)[k] == added[k - rest.len()]);
        }
        lemma_free((rest + added)[k], CommitFlags { bits: 0 });
    }
    lemma_all_pass(rest + added, stays);
    assert(after.next.items@ == rest + added);
    assert forall|p: int| 0 <= p < parents.len() implies (#[trigger] after.next.items@[rest.len() + p]).id == parents[p]
        && is_free(after.next.items@[rest.len() + p]) by {
        assert((rest + added)[rest.len() + p] == added[p]);
    }
    assert forall|s2: int, c2: int| #[trigger] commit_at(now, s2, c2) && !(s2 == s && c2 == c) implies commit_at(
        segs,
        s2,
        c2,
    ) && now[s2].commits@[c2] == segs[s2].commits@[c2] by {
        if s2 != s {
            assert(segs.contains_key(s2));
            assert(now[s2] == segs[s2]);
        } else {
            assert(c2 < c);
            assert(now[s2].commits@[c2] == segs[s2].commits@[c2]);
        }
    }
}

/// What a step that takes a commit without remote-tracking branches does
/// for a free lane where the queue has no limit: the commit comes to
/// stand in the graph, and its parents are queued behind the others.
pub proof fn lemma_taken_free(popped: Traversal, after: Traversal, item: QueueItem, info: CommitInfo, s: u32, c: usize)
    requires
        taken(popped, after, item, info, s, c),
        info.remote_tips@.len() == 0,
        is_unlimited(popped),
        is_free(item),
        popped.graph.segments().contains_key(item.instruction.segment() as int),
    ensures
        adds_commit(popped.graph.segments(), after.graph.segments(), s as int, c as int, info.id, info.parent_ids@),
        queues_parents(popped.next.items@, after.next.items@, info.parent_ids@),
{
    let segs = popped.graph.segments();
    let now = after.graph.segments();
    let src = item.instruction.segment();
    let (at, ready, later, own, sought) = choose|
        at: Traversal,
        ready: Traversal,
        later: Seq<QueueItem>,
        own: CommitFlags,
        sought: CommitFlags,
    | #[trigger]
        collected(popped, at, ready, after, later, own, sought, item, info, s, Advance::Taken { segment: s, commit: c });
    let names = crate::graph::init::names_of(popped.refs_by_id@, info.id);
    let lane = item.flags.joined(crate::graph::walk::last_flags(segs, src as int)).joined(own);
    let limit0 = recharged(item, popped.graph.options, popped.max_limit);
    let limit = Limit { allowance: limit0.allowance, goals: limit0.goals.joined(sought) };
    assert(remotes_queued(at, ready, info.id, info.remote_tips@, later, own, sought));
    assert(ready == at && later == Seq::<QueueItem>::empty());
    assert(placed(popped.graph, at.graph, item, names, s));
    assert(settled(at, after, s, info, names, lane, limit, Seq::empty(), Advance::Taken { segment: s, commit: c }));
    assert(at.next == popped.next);
    assert(limit.allowance is None);
    assert(lane.has(CommitFlags { bits: NOT_IN_REMOTE })) by {
        let a = item.flags.bits;
        let b = crate::graph::walk::last_flags(segs, src as int).bits;
        let o = own.bits;
        assert(a & 1 == 1 ==> ((a | b) | o) & 1 == 1) by (bit_vector);
    }
    lemma_placed_adds_no_commit(popped.graph, at.graph, item, names, s);
    lemma_settled_free(at, after, s, c, info, names, lane, limit);
    lemma_adds_commit(segs, at.graph.segments(), now, s as int, c as int, info.id, info.parent_ids@);
}

/// Where one step adds no commit and the next adds one, the two add one.
pub proof fn lemma_adds_commit(
    before: Map<int, Segment>,
    mid: Map<int, Segment>,
    after: Map<int, Segment>,
    s: int,
    c: int,
    id: ObjectId,
    parents: Seq<ObjectId>,
)
    requires
        adds_no_commit(before, mid),
        adds_commit(mid, after, s, c, id, parents),
    ensures
        adds_commit(before, after, s, c, id, parents),
{
    assert forall|s2: int, c2: int| #[trigger] commit_at(after, s2, c2) && !(s2 == s && c2 == c) implies commit_at(
        before,
        s2,
        c2,
    ) && after[s2].commits@[c2] == before[s2].commits@[c2] by {
        assert(commit_at(mid, s2, c2));
    }
}

/// A step of a traversal that takes a commit without remote-tracking
/// branches keeps the traversal on its way: the parents of the commit are
/// queued behind the others.
pub proof fn lemma_taken_covers(
    before: Traversal,
    popped: Traversal,
    after: Traversal,
    info: CommitInfo,
    s: u32,
    c: usize,
)
    requires
        before.wf(),
        covers(before),
        before.next.items@.len() > 0,
        before.next.items@[0].id == info.id,
        is_popped(before, popped),
        taken(popped, after, before.next.items@[0], info, s, c),
        info.remote_tips@.len() == 0,
        grows(before.graph.segments(), after.graph.segments()),
        after.tip == before.tip,
        after.max_limit == before.max_limit,
        after.next.max == before.next.max,
    ensures
        covers(after),
{
    let item = before.next.items@[0];
    let segs = before.graph.segments();
    let now = after.graph.segments();
    let rest = popped.next.items@;
    let parents = info.parent_ids@;
    assert(is_free(item));
    assert forall|k: int| 0 <= k < rest.len() implies is_free(#[trigger] rest[k]) by {
        assert(rest[k] == before.next.items@[k + 1]);
    }
    assert(segs.contains_key(item.instruction.segment() as int));
    lemma_taken_free(popped, after, item, info, s, c);
    lemma_step_covers(before, after, info.id, s as int, c as int, parents);
}

/// A traversal stays on its way over a step that takes the first commit
/// of the queue into the graph and queues its parents behind the others.
pub proof fn lemma_step_covers(before: Traversal, after: Traversal, id: ObjectId, s: int, c: int, parents: Seq<ObjectId>)
    requires
        covers(before),
        before.next.items@.len() > 0,
        before.next.items@[0].id == id,
        adds_commit(before.graph.segments(), after.graph.segments(), s, c, id, parents),
        queues_parents(before.next.items@.drop_first(), after.next.items@, parents),
        grows(before.graph.segments(), after.graph.segments()),
        after.tip == before.tip,
        after.max_limit == before.max_limit,
        after.next.max == before.next.max,
    ensures
        covers(after),
{
    let segs = before.graph.segments();
    let now = after.graph.segments();
    let rest = before.next.items@.drop_first();
    assert forall|k: int| 0 <= k < after.next.items@.len() implies is_free(#[trigger] after.next.items@[k]) by {
        if k < rest.len() {
            assert(after.next.items@[k] == rest[k]);
            assert(rest[k] == before.next.items@[k + 1]);
        } else {
            assert(is_free(after.next.items@[rest.len() + (k - rest.len())]));
        }
    }
    assert(holds_commit(now, id));
    assert forall|other: ObjectId| is_pending(before, other) implies is_pending(after, other) by {
        if holds_commit(segs, other) {
            lemma_grows_holds(segs, now, other);
        } else {
            let k = choose|k: int| 0 <= k < before.next.items@.len() && (#[trigger] before.next.items@[k]).id == other;
            if k > 0 {
                assert(after.next.items@[k - 1] == rest[k - 1]);
                assert(after.next.items@[k - 1].id == other);
            }
        }
    }
    assert forall|s2: int, c2: int, p: int| #[trigger] parent_at(now, s2, c2, p) implies is_pending(
        after,
        now[s2].commits@[c2].parent_ids@[p],
    ) by {
        if s2 == s && c2 == c {
            assert(after.next.items@[rest.len() + p].id == parents[p]);
        } else {
            assert(commit_at(now, s2, c2));
            assert(commit_at(segs, s2, c2));
            assert(parent_at(segs, s2, c2, p));
            assert(is_pending(before, segs[s2].commits@[c2].parent_ids@[p]));
        }
    }
}

/// Whether `after` holds one item for each of `rest`, for the same
/// commit, and free if that one is.
pub open spec fn keeps_items(rest: Seq<QueueItem>, after: Seq<QueueItem>) -> bool {
    &&& after.len() == rest.len()
    &&& forall|k: int|
        0 <= k < rest.len() ==> (#[trigger] after[k]).id == rest[k].id && (is_free(rest[k]) ==> is_free(after[k]))
}

/// Where a commit is met again, the items of the queue stay, each for its
/// commit, and a free lane stays free.
pub proof fn lemma_met_keeps_items(
    rest: Seq<QueueItem>,
    edges: Map<int, (int, int, crate::graph::segment::Edge)>,
    s: u32,
    c: usize,
    target: u32,
    flags: CommitFlags,
)
    ensures
        keeps_items(rest, items_met(rest, edges, s, c, target, flags)),
{
    let after = items_met(rest, edges, s, c, target, flags);
    assert forall|k: int| 0 <= k < rest.len() implies (#[trigger] after[k]).id == rest[k].id && (is_free(rest[k])
        ==> is_free(after[k])) by {
        if is_free(rest[k]) {
            lemma_free(rest[k], flags);
        }
    }
}

/// A step of a traversal that meets a commit again keeps the traversal on
/// its way: the graph holds the commits it held, and the queue the
/// commits it held but the one that was met.
pub proof fn lemma_met_covers(before: Traversal, after: Traversal, info: CommitInfo, s: u32, c: usize, target: u32)
    requires
        covers(before),
        before.next.items@.len() > 0,
        before.next.items@[0].id == info.id,
        commit_at(before.graph.segments(), s as int, c as int),
        before.graph.segments()[s as int].commits@[c as int].id == info.id,
        met_again(
            before.graph,
            after.graph,
            s,
            c,
            before.next.items@[0].flags.joined(
                crate::graph::walk::last_flags(
                    before.graph.segments(),
                    before.next.items@[0].instruction.segment() as int,
                ),
            ),
            before.next.items@[0].instruction.segment(),
            target,
        ),
        after.next.items@ == items_met(
            before.next.items@.drop_first(),
            after.graph.edges(),
            s,
            c,
            target,
            before.next.items@[0].flags.joined(
                crate::graph::walk::last_flags(
                    before.graph.segments(),
                    before.next.items@[0].instruction.segment() as int,
                ),
            ),
        ),
        grows(before.graph.segments(), after.graph.segments()),
        after.tip == before.tip,
        after.max_limit == before.max_limit,
        after.next.max == before.next.max,
    ensures
        covers(after),
{
    let item = before.next.items@[0];
    let lane = item.flags.joined(
        crate::graph::walk::last_flags(before.graph.segments(), item.instruction.segment() as int),
    );
    lemma_met_comes_from(before.graph, after.graph, s, c, lane, item.instruction.segment(), target);
    lemma_met_keeps_items(before.next.items@.drop_first(), after.graph.edges(), s, c, target, lane);
    assert(holds_commit(before.graph.segments(), info.id));
    lemma_kept_covers(before, after);
}

/// A traversal stays on its way over a step that takes the first commit
/// of the queue, which the graph holds, out of the queue, and leaves the
/// commits of the graph and the other commits of the queue where they are.
pub proof fn lemma_kept_covers(before: Traversal, after: Traversal)
    requires
        covers(before),
        before.next.items@.len() > 0,
        holds_commit(before.graph.segments(), before.next.items@[0].id),
        keeps_items(before.next.items@.drop_first(), after.next.items@),
        comes_from(before.graph.segments(), after.graph.segments()),
        grows(before.graph.segments(), after.graph.segments()),
        after.tip == before.tip,
        after.max_limit == before.max_limit,
        after.next.max == before.next.max,
    ensures
        covers(after),
{
    let segs = before.graph.segments();
    let now = after.graph.segments();
    let rest = before.next.items@.drop_first();
    assert forall|k: int| 0 <= k < after.next.items@.len() implies is_free(#[trigger] after.next.items@[k]) by {
        assert(rest[k] == before.next.items@[k + 1]);
    }
    assert forall|id: ObjectId| is_pending(before, id) implies is_pending(after, id) by {
        if holds_commit(segs, id) {
            lemma_grows_holds(segs, now, id);
        } else {
            let k = choose|k: int| 0 <= k < before.next.items@.len() && (#[trigger] before.next.items@[k]).id == id;
            assert(k > 0);
            assert(rest[k - 1] == before.next.items@[k]);
            assert(after.next.items@[k - 1].id == id);
        }
    }
    assert forall|s2: int, c2: int, p: int| #[trigger] parent_at(now, s2, c2, p) implies is_pending(
        after,
        now[s2].commits@[c2].parent_ids@[p],
    ) by {
        assert(commit_at(now, s2, c2));
        let (s1, c1) = choose|s1: int, c1: int| #[trigger]
            commit_at(segs, s1, c1) && segs[s1].commits@[c1].id == now[s2].commits@[c2].id && segs[s1].commits@[c1].parent_ids
                == now[s2].commits@[c2].parent_ids;
        assert(parent_at(segs, s1, c1, p));
        assert(is_pending(before, segs[s1].commits@[c1].parent_ids@[p]));
    }
}

/// When nothing is queued any more, the graph of a traversal that was on
/// its way holds the commit that the traversal started from, and each
/// parent of each of its commits.
pub proof fn lemma_done_is_closed(t: Traversal)
    requires
        covers(t),
        t.next.items@.len() == 0,
    ensures
        holds_commit(t.graph.segments(), t.tip),
        is_closed(t.graph.segments()),
{
    let segs = t.graph.segments();
    assert forall|s: int, c: int, p: int| #[trigger] parent_at(segs, s, c, p) implies holds_commit(
        segs,
        segs[s].commits@[c].parent_ids@[p],
    ) by {
        assert(is_pending(t, segs[s].commits@[c].parent_ids@[p]));
    }
}

/// A graph that holds each parent of each of its commits holds every
/// commit that can be reached from one of its commits: along a path on
/// which each commit is listed as a parent by the one before it, every
/// commit is in the graph if the first is.
pub proof fn lemma_closed_holds_ancestors(segments: Map<int, Segment>, path: Seq<ObjectId>, k: int)
    requires
        is_closed(segments),
        0 <= k < path.len(),
        holds_commit(segments, path[0]),
        forall|j: int| 0 < j < path.len() ==> is_parent(segments, path[j - 1], #[trigger] path[j]),
    ensures
        holds_commit(segments, path[k]),
    decreases k,
{
    if k > 0 {
        lemma_closed_holds_ancestors(segments, path, k - 1);
        assert(is_parent(segments, path[k - 1], path[k]));
        let (s, c, p) = choose|s: int, c: int, p: int| #[trigger]
            parent_at(segments, s, c, p) && segments[s].commits@[c].id == path[k - 1] && segments[s].commits@[c].parent_ids@[p]
                == path[k];
        assert(parent_at(segments, s, c, p));
    }
}

} // verus!
