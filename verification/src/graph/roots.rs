//! How the segments of a graph hang together: each segment can be reached
//! from a segment that a traversal started at.

use vstd::prelude::*;

use crate::graph::arena::{rewired, split_at, Graph};
use crate::graph::init::{Advance, Traversal};
use crate::graph::walk::{collected, halved, joined, met_again, placed, remotes_queued};
use crate::graph::init::CommitInfo;
use crate::graph::walk::taken;
use crate::graph::flags::CommitFlags;
use crate::graph::queue::QueueItem;
use crate::graph::reach::{is_walk, lemma_walk_on, reaches};
use crate::graph::segment::{Edge, Segment};

verus! {

/// Whether `set` holds, with a segment, the segments that the edges lead
/// to from it.
pub open spec fn follows_edges(edges: Map<int, (int, int, Edge)>, set: Set<int>) -> bool {
    forall|e: int| #[trigger] edges.contains_key(e) && set.contains(edges[e].0) ==> set.contains(edges[e].1)
}

/// Whether the segments `nodes` hang on the segments `roots`: a set of
/// segments that holds the roots and, with a segment, those that the
/// edges lead to from it, holds them all.
pub open spec fn rooted(nodes: Set<int>, edges: Map<int, (int, int, Edge)>, roots: Set<int>) -> bool {
    forall|set: Set<int>| roots.subset_of(set) && #[trigger] follows_edges(edges, set) ==> nodes.subset_of(set)
}

/// Whether the segment `s` can be reached from one of `roots` along the edges.
pub open spec fn reached_from(edges: Map<int, (int, int, Edge)>, roots: Set<int>, s: int) -> bool {
    exists|r: int| roots.contains(r) && #[trigger] reaches(edges, r, s)
}

/// Segments that hang on roots can each be reached from a root along the
/// edges.
pub proof fn lemma_rooted_is_reached(nodes: Set<int>, edges: Map<int, (int, int, Edge)>, roots: Set<int>, s: int)
    requires
        rooted(nodes, edges, roots),
        nodes.contains(s),
    ensures
        reached_from(edges, roots, s),
{
    let set = Set::new(|k: int| reached_from(edges, roots, k));
    assert forall|r: int| roots.contains(r) implies set.contains(r) by {
        let walk = seq![r];
        assert(is_walk(edges, walk) && walk[0] == r && walk.last() == r);
        assert(reaches(edges, r, r));
    }
    assert forall|e: int| #[trigger] edges.contains_key(e) && set.contains(edges[e].0) implies set.contains(
        edges[e].1,
    ) by {
        let r = choose|r: int| roots.contains(r) && #[trigger] reaches(edges, r, edges[e].0);
        lemma_walk_on(edges, r, edges[e].0, edges[e].1);
        assert(reaches(edges, r, edges[e].1));
    }
    assert(follows_edges(edges, set));
    assert(set.contains(s));
}

/// Segments hang on themselves.
pub proof fn lemma_rooted_on_all(nodes: Set<int>, edges: Map<int, (int, int, Edge)>)
    ensures
        rooted(nodes, edges, nodes),
{
}

/// Segments that hang on roots go on to do so when a segment is added as
/// a root, or behind an edge from a segment that was there, and when
/// edges are added.
pub proof fn lemma_rooted_grows(
    nodes: Set<int>,
    edges: Map<int, (int, int, Edge)>,
    roots: Set<int>,
    more_nodes: Set<int>,
    more_edges: Map<int, (int, int, Edge)>,
    more_roots: Set<int>,
)
    requires
        rooted(nodes, edges, roots),
        roots.subset_of(more_roots),
        forall|e: int| #[trigger] edges.contains_key(e) ==> more_edges.contains_key(e) && more_edges[e] == edges[e],
        forall|s: int| #[trigger]
            more_nodes.contains(s) ==> nodes.contains(s) || more_roots.contains(s) || exists|e: int| #[trigger]
                more_edges.contains_key(e) && nodes.contains(more_edges[e].0) && more_edges[e].1 == s,
    ensures
        rooted(more_nodes, more_edges, more_roots),
{
    assert forall|set: Set<int>| more_roots.subset_of(set) && #[trigger] follows_edges(more_edges, set) implies more_nodes.subset_of(
        set,
    ) by {
        assert(follows_edges(edges, set)) by {
            assert forall|e: int| #[trigger] edges.contains_key(e) && set.contains(edges[e].0) implies set.contains(
                edges[e].1,
            ) by {
                assert(more_edges.contains_key(e));
            }
        }
        assert(nodes.subset_of(set));
        assert forall|s: int| more_nodes.contains(s) implies set.contains(s) by {
            if !nodes.contains(s) && !more_roots.contains(s) {
                let e = choose|e: int| #[trigger]
                    more_edges.contains_key(e) && nodes.contains(more_edges[e].0) && more_edges[e].1 == s;
                assert(set.contains(more_edges[e].0));
            }
        }
    }
}

/// Segments that hang on roots go on to do so when a segment is split.
pub proof fn lemma_rooted_split(
    before: Map<int, Segment>,
    edges: Map<int, (int, int, Edge)>,
    after: Map<int, Segment>,
    rewired_edges: Map<int, (int, int, Edge)>,
    roots: Set<int>,
    segment: u32,
    lower: u32,
    at: usize,
    link: (int, int, Edge),
)
    requires
        rooted(before.dom(), edges, roots),
        split_at(before, after, segment, lower, at),
        rewired(edges, rewired_edges, segment, lower, at, link),
        link.0 == segment,
        link.1 == lower,
    ensures
        rooted(after.dom(), rewired_edges, roots),
{
    assert forall|set: Set<int>| roots.subset_of(set) && #[trigger] follows_edges(rewired_edges, set) implies after.dom().subset_of(
        set,
    ) by {
        let n = choose|n: int| #[trigger] rewired_edges.contains_key(n) && rewired_edges[n] == link;
        assert(rewired_edges.contains_key(n));
        assert(follows_edges(edges, set)) by {
            assert forall|e: int| #[trigger] edges.contains_key(e) && set.contains(edges[e].0) implies set.contains(
                edges[e].1,
            ) by {
                if edges[e].0 != segment {
                    assert(rewired_edges.contains_key(e));
                } else {
                    assert(set.contains(lower as int));
                    let m = choose|m: int| #[trigger]
                        rewired_edges.contains_key(m) && rewired_edges[m] == crate::graph::arena::moved(edges[e], lower, at);
                    assert(rewired_edges.contains_key(m));
                }
            }
        }
        assert(before.dom().subset_of(set));
        assert(set.contains(segment as int));
        assert(set.contains(lower as int));
    }
}

/// Segments that hang on roots go on to do so when a commit is met again.
pub proof fn lemma_rooted_met(
    before: Graph,
    after: Graph,
    segment: u32,
    commit: usize,
    flags: CommitFlags,
    src: u32,
    target: u32,
    roots: Set<int>,
)
    requires
        met_again(before, after, segment, commit, flags, src, target),
        rooted(before.segments().dom(), before.edges(), roots),
        before.segments().contains_key(src as int),
    ensures
        rooted(after.segments().dom(), after.edges(), roots),
{
    let halves = choose|halves: Graph| #[trigger]
        halved(before, halves, segment, commit, target) && joined(halves, after, src, target, flags);
    if commit != 0 {
        lemma_rooted_split(
            before.segments(),
            before.edges(),
            halves.segments(),
            halves.edges(),
            roots,
            segment,
            target,
            commit,
            crate::graph::arena::link_of(before.segments(), segment, target, commit),
        );
    }
    assert(rooted(halves.segments().dom(), halves.edges(), roots));
    lemma_rooted_grows(
        halves.segments().dom(),
        halves.edges(),
        roots,
        after.segments().dom(),
        after.edges(),
        roots,
    );
}

/// Segments that hang on roots go on to do so when the segment for a
/// commit is found.
pub proof fn lemma_rooted_placed(before: Graph, after: Graph, item: QueueItem, names: Seq<String>, s: u32, roots: Set<int>)
    requires
        placed(before, after, item, names, s),
        rooted(before.segments().dom(), before.edges(), roots),
        before.segments().contains_key(item.instruction.segment() as int),
    ensures
        rooted(after.segments().dom(), after.edges(), roots),
{
    if crate::graph::walk::starts_segment(before.segments(), item.instruction, names) {
        let e = choose|e: int| #[trigger]
            after.edges().contains_key(e) && !before.edges().contains_key(e) && after.edges().dom()
                == before.edges().dom().insert(e) && after.edges()[e].0 == item.instruction.segment() && after.edges()[e].1
                == s;
        assert(after.edges().contains_key(e));
    }
    lemma_rooted_grows(
        before.segments().dom(),
        before.edges(),
        roots,
        after.segments().dom(),
        after.edges(),
        roots,
    );
}

/// Whether the segments of `after` hang on whatever roots the segments of
/// `before` hang on.
pub open spec fn keeps_roots(before: Graph, after: Graph) -> bool {
    forall|roots: Set<int>| #[trigger]
        rooted(before.segments().dom(), before.edges(), roots) ==> rooted(
            after.segments().dom(),
            after.edges(),
            roots,
        )
}

/// To look at remote-tracking branches leaves the edges as they are, and
/// the segments that were there.
pub proof fn lemma_remotes_keep_edges(
    before: Traversal,
    after: Traversal,
    id: crate::object_id::ObjectId,
    tips: Seq<crate::graph::init::RemoteTip>,
    later: Seq<QueueItem>,
    own: CommitFlags,
    sought: CommitFlags,
)
    requires
        remotes_queued(before, after, id, tips, later, own, sought),
    ensures
        after.graph.edges() == before.graph.edges(),
        before.graph.segments().dom().subset_of(after.graph.segments().dom()),
    decreases tips.len(),
{
    if tips.len() > 0 {
        let (mid, l, o, s) = choose|mid: Traversal, l: Seq<QueueItem>, o: CommitFlags, s: CommitFlags|
            remotes_queued(before, mid, id, tips.drop_last(), l, o, s) && #[trigger] crate::graph::walk::remote_queued(
                mid,
                l,
                o,
                s,
                id,
                tips.last(),
                after,
                later,
                own,
                sought,
            );
        lemma_remotes_keep_edges(before, mid, id, tips.drop_last(), l, o, s);
    }
}

/// Over a step that takes a commit, the segments go on to hang on their
/// roots and on the segments that were made for the remote-tracking
/// branches of the commit.
pub proof fn lemma_rooted_collected(
    before: Traversal,
    at: Traversal,
    ready: Traversal,
    after: Traversal,
    later: Seq<QueueItem>,
    own: CommitFlags,
    sought: CommitFlags,
    item: QueueItem,
    info: CommitInfo,
    s: u32,
    c: usize,
    roots: Set<int>,
)
    requires
        collected(before, at, ready, after, later, own, sought, item, info, s, Advance::Taken { segment: s, commit: c }),
        rooted(before.graph.segments().dom(), before.graph.edges(), roots),
        before.graph.segments().contains_key(item.instruction.segment() as int),
    ensures
        rooted(
            after.graph.segments().dom(),
            after.graph.edges(),
            roots + (ready.graph.segments().dom() - at.graph.segments().dom()),
        ),
{
    let names = crate::graph::init::names_of(before.refs_by_id@, info.id);
    assert(placed(before.graph, at.graph, item, names, s));
    lemma_rooted_placed(before.graph, at.graph, item, names, s, roots);
    assert(remotes_queued(at, ready, info.id, info.remote_tips@, later, own, sought));
    lemma_remotes_keep_edges(at, ready, info.id, info.remote_tips@, later, own, sought);
    lemma_rooted_grows(
        at.graph.segments().dom(),
        at.graph.edges(),
        roots,
        ready.graph.segments().dom(),
        ready.graph.edges(),
        roots + (ready.graph.segments().dom() - at.graph.segments().dom()),
    );
    assert(after.graph.edges() == ready.graph.edges());
    assert(after.graph.segments().dom() == ready.graph.segments().dom());
}

/// Whether the segments of `after` hang on whatever roots the segments of
/// `before` hang on, and on the segments `more`.
pub open spec fn keeps_roots_with(before: Graph, after: Graph, more: Set<int>) -> bool {
    forall|roots: Set<int>| #[trigger]
        rooted(before.segments().dom(), before.edges(), roots) ==> rooted(
            after.segments().dom(),
            after.edges(),
            roots + more,
        )
}

/// Over a step that takes a commit into the segment `s`, the segments go
/// on to hang on their roots and on the segments that the step made but
/// `s`: those of the remote-tracking branches of the commit.
pub proof fn lemma_rooted_taken_with(
    before: Traversal,
    after: Traversal,
    item: QueueItem,
    info: CommitInfo,
    s: u32,
    c: usize,
    roots: Set<int>,
)
    requires
        taken(before, after, item, info, s, c),
        rooted(before.graph.segments().dom(), before.graph.edges(), roots),
        before.graph.segments().contains_key(item.instruction.segment() as int),
    ensures
        rooted(
            after.graph.segments().dom(),
            after.graph.edges(),
            roots + (after.graph.segments().dom() - before.graph.segments().dom()).remove(s as int),
        ),
{
    let (at, ready, later, own, sought) = choose|
        at: Traversal,
        ready: Traversal,
        later: Seq<QueueItem>,
        own: CommitFlags,
        sought: CommitFlags,
    | #[trigger]
        collected(before, at, ready, after, later, own, sought, item, info, s, Advance::Taken { segment: s, commit: c });
    lemma_rooted_collected(before, at, ready, after, later, own, sought, item, info, s, c, roots);
    let made = ready.graph.segments().dom() - at.graph.segments().dom();
    let more = (after.graph.segments().dom() - before.graph.segments().dom()).remove(s as int);
    assert(after.graph.segments().dom() == ready.graph.segments().dom());
    assert(at.graph.segments().contains_key(s as int));
    assert forall|x: int| before.graph.segments().contains_key(x) implies at.graph.segments().contains_key(x) by {}
    assert((roots + made).subset_of(roots + more));
    lemma_rooted_grows(
        after.graph.segments().dom(),
        after.graph.edges(),
        roots + made,
        after.graph.segments().dom(),
        after.graph.edges(),
        roots + more,
    );
}

/// Segments that hang on roots go on to do so over a step that takes a
/// commit without remote-tracking branches.
pub proof fn lemma_rooted_taken(
    before: Traversal,
    after: Traversal,
    item: QueueItem,
    info: CommitInfo,
    s: u32,
    c: usize,
    roots: Set<int>,
)
    requires
        taken(before, after, item, info, s, c),
        info.remote_tips@.len() == 0,
        rooted(before.graph.segments().dom(), before.graph.edges(), roots),
        before.graph.segments().contains_key(item.instruction.segment() as int),
    ensures
        rooted(after.graph.segments().dom(), after.graph.edges(), roots),
{
    let (at, ready, later, own, sought) = choose|
        at: Traversal,
        ready: Traversal,
        later: Seq<QueueItem>,
        own: CommitFlags,
        sought: CommitFlags,
    | #[trigger]
        collected(before, at, ready, after, later, own, sought, item, info, s, Advance::Taken { segment: s, commit: c });
    let names = crate::graph::init::names_of(before.refs_by_id@, info.id);
    assert(placed(before.graph, at.graph, item, names, s));
    lemma_rooted_placed(before.graph, at.graph, item, names, s, roots);
    assert(remotes_queued(at, ready, info.id, info.remote_tips@, later, own, sought));
    assert(ready == at);
    assert(after.graph.edges() == at.graph.edges());
    assert(after.graph.segments().dom() == at.graph.segments().dom());
}

} // verus!
