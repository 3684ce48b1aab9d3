//! How flags run along a segment: each commit has the flags of the commit
//! before it, and a traversal keeps it so.

use vstd::prelude::*;

use crate::graph::arena::{commit_at, same_but, split_at, Graph};
use crate::graph::flags::CommitFlags;
use crate::graph::init::{with_segment, Advance, CommitInfo, Traversal};
use crate::graph::post::same_commits;
use crate::graph::queue::QueueItem;
use crate::graph::segment::{Edge, Segment};
use crate::graph::walk::{
    collected, cut_short, flags_added, halved, joined, last_flags, met_again, placed, prepared, remote_queued,
    remotes_queued, spread, taken,
};
use crate::object_id::ObjectId;

verus! {

/// Whether in each segment each commit has the flags of the commit before it.
pub open spec fn flags_descend(segments: Map<int, Segment>) -> bool {
    forall|s: int, c: int| #[trigger]
        commit_at(segments, s, c) && c > 0 ==> segments[s].commits@[c].flags.has(segments[s].commits@[c - 1].flags)
}

/// Flags that hold others go on to hold them when both get more flags.
pub proof fn lemma_joined_has(a: CommitFlags, b: CommitFlags, more: CommitFlags)
    requires
        a.has(b),
    ensures
        a.joined(more).has(b),
        a.joined(more).has(b.joined(more)),
{
    let x = a.bits;
    let y = b.bits;
    let z = more.bits;
    assert(x & y == y ==> (x | z) & y == y && (x | z) & (y | z) == (y | z)) by (bit_vector);
}

/// Flags go on to run along the segments when a segment without commits
/// is added.
pub proof fn lemma_descend_with_segment(
    before: Map<int, Segment>,
    after: Map<int, Segment>,
    index: u32,
    name: Option<String>,
    metadata: Option<crate::graph::segment::SegmentMetadata>,
    sibling: Option<u32>,
)
    requires
        with_segment(before, after, index, name, metadata, sibling),
        flags_descend(before),
    ensures
        flags_descend(after),
{
    assert forall|s: int, c: int| #[trigger] commit_at(after, s, c) && c > 0 implies after[s].commits@[c].flags.has(
        after[s].commits@[c - 1].flags,
    ) by {
        assert(s != index);
        assert(before.contains_key(s));
        assert(commit_at(before, s, c));
    }
}

/// Flags go on to run along the segments when a segment is split.
pub proof fn lemma_descend_split(before: Map<int, Segment>, after: Map<int, Segment>, segment: u32, lower: u32, at: usize)
    requires
        split_at(before, after, segment, lower, at),
        flags_descend(before),
    ensures
        flags_descend(after),
{
    assert forall|s: int, c: int| #[trigger] commit_at(after, s, c) && c > 0 implies after[s].commits@[c].flags.has(
        after[s].commits@[c - 1].flags,
    ) by {
        if s == lower {
            assert(commit_at(before, segment as int, c + at));
        } else if s == segment {
            assert(commit_at(before, segment as int, c));
        } else {
            assert(before.contains_key(s));
            assert(commit_at(before, s, c));
        }
    }
}

/// Flags go on to run along the segments when flags are added to all
/// that comes after a place.
pub proof fn lemma_descend_spread(
    before: Map<int, Segment>,
    after: Map<int, Segment>,
    edges: Map<int, (int, int, Edge)>,
    start: u32,
    from: usize,
    flags: CommitFlags,
)
    requires
        spread(before, after, edges, start, from, flags),
        flags_descend(before),
    ensures
        flags_descend(after),
{
    assert forall|s: int, c: int| #[trigger] commit_at(after, s, c) && c > 0 implies after[s].commits@[c].flags.has(
        after[s].commits@[c - 1].flags,
    ) by {
        assert(before.contains_key(s));
        assert(commit_at(before, s, c));
        let old_here = before[s].commits@[c].flags;
        let old_above = before[s].commits@[c - 1].flags;
        lemma_joined_has(old_here, old_above, flags);
        if after[s] != before[s] {
            let first = if s == start {
                from as int
            } else {
                0
            };
            assert(flags_added(before[s], after[s], first, flags));
            if c >= first {
                assert(after[s].commits@[c].flags == old_here.joined(flags));
            } else {
                assert(after[s].commits@[c] == before[s].commits@[c]);
            }
            if c - 1 >= first {
                assert(after[s].commits@[c - 1].flags == old_above.joined(flags));
            } else {
                assert(after[s].commits@[c - 1] == before[s].commits@[c - 1]);
            }
        }
    }
}

/// Flags go on to run along the segments when a commit is met again.
pub proof fn lemma_descend_met(
    before: Graph,
    after: Graph,
    segment: u32,
    commit: usize,
    flags: CommitFlags,
    src: u32,
    target: u32,
)
    requires
        met_again(before, after, segment, commit, flags, src, target),
        flags_descend(before.segments()),
    ensures
        flags_descend(after.segments()),
{
    let halves = choose|halves: Graph| #[trigger]
        halved(before, halves, segment, commit, target) && joined(halves, after, src, target, flags);
    if commit != 0 {
        lemma_descend_split(before.segments(), halves.segments(), segment, target, commit);
    }
    lemma_descend_spread(halves.segments(), after.segments(), after.edges(), target, 0, flags);
}

/// Flags go on to run along the segments when the remote-tracking
/// branches of a commit get their segments.
pub proof fn lemma_descend_remotes(
    before: Traversal,
    after: Traversal,
    id: ObjectId,
    tips: Seq<crate::graph::init::RemoteTip>,
    later: Seq<QueueItem>,
    own: CommitFlags,
    sought: CommitFlags,
)
    requires
        remotes_queued(before, after, id, tips, later, own, sought),
        flags_descend(before.graph.segments()),
    ensures
        flags_descend(after.graph.segments()),
        forall|s: int| #[trigger]
            before.graph.segments().contains_key(s) ==> after.graph.segments().contains_key(s) && after.graph.segments()[s]
                == before.graph.segments()[s],
    decreases tips.len(),
{
    if tips.len() > 0 {
        let (mid, l, o, s) = choose|mid: Traversal, l: Seq<QueueItem>, o: CommitFlags, s: CommitFlags|
            remotes_queued(before, mid, id, tips.drop_last(), l, o, s) && #[trigger] remote_queued(
                mid,
                l,
                o,
                s,
                id,
                tips.last(),
                after,
                later,
                own,
                sought,
            );
        lemma_descend_remotes(before, mid, id, tips.drop_last(), l, o, s);
        if after != mid {
            let index = choose|index: u32| #[trigger]
                with_segment(mid.graph.segments(), after.graph.segments(), index, Some(tips.last().ref_name), None, None);
            lemma_descend_with_segment(
                mid.graph.segments(),
                after.graph.segments(),
                index,
                Some(tips.last().ref_name),
                None,
                None,
            );
            assert forall|k: int| #[trigger] before.graph.segments().contains_key(k) implies after.graph.segments().contains_key(
                k,
            ) && after.graph.segments()[k] == before.graph.segments()[k] by {
                assert(mid.graph.segments().contains_key(k));
            }
        }
    }
}

/// Flags go on to run along the segments over a step that collects a
/// commit, whether the commit is taken or the queue is exhausted: the
/// commit gets the flags of the commit before it.
pub proof fn lemma_descend_collected(
    before: Traversal,
    at: Traversal,
    ready: Traversal,
    after: Traversal,
    later: Seq<QueueItem>,
    own: CommitFlags,
    sought: CommitFlags,
    item: QueueItem,
    info: CommitInfo,
    s: u32,
    r: Advance,
)
    requires
        collected(before, at, ready, after, later, own, sought, item, info, s, r),
        flags_descend(before.graph.segments()),
    ensures
        flags_descend(after.graph.segments()),
{
    let names = crate::graph::init::names_of(before.refs_by_id@, info.id);
    assert(prepared(before, at, ready, later, own, sought, item, info, s));
    assert(placed(before.graph, at.graph, item, names, s));
    if crate::graph::walk::starts_segment(before.graph.segments(), item.instruction, names) {
        lemma_descend_with_segment(
            before.graph.segments(),
            at.graph.segments(),
            s,
            crate::graph::refs::natural_name(names),
            None,
            None,
        );
    }
    lemma_descend_remotes(at, ready, info.id, info.remote_tips@, later, own, sought);
    let segs = ready.graph.segments();
    let now = after.graph.segments();
    assert(at.graph.segments().contains_key(s as int));
    assert(segs.contains_key(s as int));
    let place = segs[s as int].commits@.len() as int;
    assert(same_but(segs, now, s as int));
    assert forall|k: int, c: int| #[trigger] commit_at(now, k, c) && c > 0 implies now[k].commits@[c].flags.has(
        now[k].commits@[c - 1].flags,
    ) by {
        assert(segs.contains_key(k));
        if k != s {
            assert(now[k] == segs[k]);
            assert(commit_at(segs, k, c));
        } else if c < place {
            assert(now[k].commits@[c] == segs[k].commits@[c]);
            assert(now[k].commits@[c - 1] == segs[k].commits@[c - 1]);
            assert(commit_at(segs, k, c));
        } else {
            assert(c == place);
            assert(now[k].commits@[c - 1] == segs[k].commits@[c - 1]);
            let last = last_flags(segs, s as int);
            let lane = item.flags.joined(last_flags(before.graph.segments(), item.instruction.segment() as int)).joined(
                own,
            );
            assert(last == segs[k].commits@[c - 1].flags);
            assert(now[k].commits@[c].flags == last.joined(lane));
            let x = last.bits;
            let z = lane.bits;
            assert((x | z) & x == x) by (bit_vector);
        }
    }
}

/// Flags go on to run along the segments over a step that takes a commit.
pub proof fn lemma_descend_taken(
    before: Traversal,
    after: Traversal,
    item: QueueItem,
    info: CommitInfo,
    s: u32,
    c: usize,
)
    requires
        taken(before, after, item, info, s, c),
        flags_descend(before.graph.segments()),
    ensures
        flags_descend(after.graph.segments()),
{
    let (at, ready, later, own, sought) = choose|
        at: Traversal,
        ready: Traversal,
        later: Seq<QueueItem>,
        own: CommitFlags,
        sought: CommitFlags,
    | #[trigger]
        collected(before, at, ready, after, later, own, sought, item, info, s, Advance::Taken { segment: s, commit: c });
    lemma_descend_collected(
        before,
        at,
        ready,
        after,
        later,
        own,
        sought,
        item,
        info,
        s,
        Advance::Taken { segment: s, commit: c },
    );
}

/// Flags go on to run along the segments over a step on which the queue
/// is exhausted.
pub proof fn lemma_descend_cut_short(before: Traversal, after: Traversal, item: QueueItem, info: CommitInfo)
    requires
        cut_short(before, after, item, info),
        flags_descend(before.graph.segments()),
    ensures
        flags_descend(after.graph.segments()),
{
    let (s, at, ready, later, own, sought) = choose|
        s: u32,
        at: Traversal,
        ready: Traversal,
        later: Seq<QueueItem>,
        own: CommitFlags,
        sought: CommitFlags,
    | #[trigger] collected(before, at, ready, after, later, own, sought, item, info, s, Advance::HardLimit);
    lemma_descend_collected(before, at, ready, after, later, own, sought, item, info, s, Advance::HardLimit);
}

/// Segments without commits have flags that run along them.
pub proof fn lemma_descend_empty(segments: Map<int, Segment>)
    requires
        crate::graph::init::all_empty(segments),
    ensures
        flags_descend(segments),
{
    assert forall|s: int, c: int| #[trigger] commit_at(segments, s, c) && c > 0 implies segments[s].commits@[c].flags.has(
        segments[s].commits@[c - 1].flags,
    ) by {
        assert(segments.contains_key(s));
    }
}

/// Flags go on to run along the segments when the commits stay the same
/// but for their references.
pub proof fn lemma_descend_same_commits(before: Map<int, Segment>, after: Map<int, Segment>)
    requires
        same_commits(before, after),
        flags_descend(before),
    ensures
        flags_descend(after),
{
    assert forall|s: int, c: int| #[trigger] commit_at(after, s, c) && c > 0 implies after[s].commits@[c].flags.has(
        after[s].commits@[c - 1].flags,
    ) by {
        assert(before.contains_key(s));
        assert(commit_at(before, s, c));
        assert(commit_at(before, s, c - 1));
    }
}

} // verus!
