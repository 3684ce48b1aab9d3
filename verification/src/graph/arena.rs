//! The graph: segments by index, and the edges between them.

use petgraph::stable_graph::StableGraph;
use vstd::prelude::*;

use crate::graph::flags::{lemma_flags_order, CommitFlags};
use crate::graph::options::Options;
use crate::graph::segment::{Commit, Edge, Segment};
use crate::graph::store::{
    graph_edges, graph_nodes, lists_edges, lists_nodes, store_add_edge, store_add_node, store_edges, store_new,
    store_node, store_node_ids, store_node_mut, store_remove_edge, EdgeRecord,
};
use crate::object_id::ObjectId;

verus! {

/// A graph of segments.
pub struct Graph {
    /// The segments and the edges.
    pub inner: StableGraph<Segment, Edge>,
    /// The segment, and in it the commit, that the traversal started from.
    pub entrypoint: Option<(u32, Option<usize>)>,
    /// The reference that the traversal started from.
    pub entrypoint_ref: Option<String>,
    /// The segment of the extra target, if the options name one.
    pub extra_target: Option<u32>,
    /// Whether the traversal stopped at the hard limit: the graph is partial.
    pub hard_limit_hit: bool,
    /// The options that the graph was made with.
    pub options: Options,
}

/// Whether `segments` holds a commit at the place `commit` of the segment `segment`.
pub open spec fn commit_at(segments: Map<int, Segment>, segment: int, commit: int) -> bool {
    segments.contains_key(segment) && 0 <= commit < segments[segment].commits@.len()
}

/// Whether `segments` holds the commit `id`.
pub open spec fn holds_commit(segments: Map<int, Segment>, id: ObjectId) -> bool {
    exists|s: int, c: int| #[trigger] commit_at(segments, s, c) && segments[s].commits@[c].id == id
}

/// Whether no commit stands at two places.
pub open spec fn commits_once(segments: Map<int, Segment>) -> bool {
    forall|s1: int, c1: int, s2: int, c2: int|
        #[trigger] commit_at(segments, s1, c1) && #[trigger] commit_at(segments, s2, c2)
            && segments[s1].commits@[c1].id == segments[s2].commits@[c2].id ==> s1 == s2 && c1 == c2
}

/// The edge that connects the commit `src_commit` of `src` with the commit
/// `dst_commit` of `dst`. It names the commits by the identifiers given
/// and, where none is given, by those found at the two places.
pub open spec fn edge_between(
    segments: Map<int, Segment>,
    src: u32,
    src_commit: Option<usize>,
    src_id: Option<ObjectId>,
    dst: u32,
    dst_commit: Option<usize>,
    dst_id: Option<ObjectId>,
) -> Edge {
    Edge {
        src: src_commit,
        src_id: if src_id is Some {
            src_id
        } else {
            segments[src as int].id_at(src_commit)
        },
        dst: dst_commit,
        dst_id: if dst_id is Some {
            dst_id
        } else {
            segments[dst as int].id_at(dst_commit)
        },
    }
}

/// `segment` with the index `id`.
pub open spec fn with_id(segment: Segment, id: u32) -> Segment {
    Segment {
        id,
        ref_name: segment.ref_name,
        commits: segment.commits,
        metadata: segment.metadata,
        sibling_segment_id: segment.sibling_segment_id,
    }
}

/// Whether `after` holds the segments of `before` and the same in each but
/// in the segment `segment`.
pub open spec fn same_but(before: Map<int, Segment>, after: Map<int, Segment>, segment: int) -> bool {
    &&& after.dom() == before.dom()
    &&& forall|k: int| k != segment && #[trigger] before.contains_key(k) ==> after[k] == before[k]
}

/// Whether two segments agree in all but their commits.
pub open spec fn same_header(a: Segment, b: Segment) -> bool {
    &&& a.id == b.id
    &&& a.ref_name == b.ref_name
    &&& a.metadata == b.metadata
    &&& a.sibling_segment_id == b.sibling_segment_id
}

/// Whether `after` is `before` with the flags `flags` added.
pub open spec fn flagged(before: Commit, after: Commit, flags: CommitFlags) -> bool {
    &&& after.id == before.id
    &&& after.parent_ids == before.parent_ids
    &&& after.refs == before.refs
    &&& after.flags == before.flags.joined(flags)
}

/// Whether every commit of `before` stands in `after` with all the flags
/// it had: no commit is lost, and no flag of a commit.
pub open spec fn grows(before: Map<int, Segment>, after: Map<int, Segment>) -> bool {
    forall|s: int, c: int| #[trigger]
        commit_at(before, s, c) ==> exists|s2: int, c2: int| #[trigger]
            commit_at(after, s2, c2) && after[s2].commits@[c2].id == before[s].commits@[c].id
                && after[s2].commits@[c2].flags.has(before[s].commits@[c].flags)
}

/// Nothing is lost where nothing changes, and nothing is lost over two
/// steps that each lose nothing.
pub proof fn lemma_grows(a: Map<int, Segment>, b: Map<int, Segment>, c: Map<int, Segment>)
    ensures
        grows(a, a),
        grows(a, b) && grows(b, c) ==> grows(a, c),
{
    assert forall|s: int, k: int| #[trigger] commit_at(a, s, k) implies exists|s2: int, c2: int| #[trigger]
        commit_at(a, s2, c2) && a[s2].commits@[c2].id == a[s].commits@[k].id && a[s2].commits@[c2].flags.has(
            a[s].commits@[k].flags,
        ) by {
        lemma_flags_order(a[s].commits@[k].flags, a[s].commits@[k].flags, a[s].commits@[k].flags);
    }
    if grows(a, b) && grows(b, c) {
        assert forall|s: int, k: int| #[trigger] commit_at(a, s, k) implies exists|s2: int, c2: int| #[trigger]
            commit_at(c, s2, c2) && c[s2].commits@[c2].id == a[s].commits@[k].id && c[s2].commits@[c2].flags.has(
                a[s].commits@[k].flags,
            ) by {
            let (s1, c1) = choose|s1: int, c1: int| #[trigger]
                commit_at(b, s1, c1) && b[s1].commits@[c1].id == a[s].commits@[k].id && b[s1].commits@[c1].flags.has(
                    a[s].commits@[k].flags,
                );
            let (s2, c2) = choose|s2: int, c2: int| #[trigger]
                commit_at(c, s2, c2) && c[s2].commits@[c2].id == b[s1].commits@[c1].id && c[s2].commits@[c2].flags.has(
                    b[s1].commits@[c1].flags,
                );
            lemma_flags_order(c[s2].commits@[c2].flags, b[s1].commits@[c1].flags, a[s].commits@[k].flags);
        }
    }
}

/// The edge `edge` when the first `at` commits of the segment it comes
/// from went to another segment: it leaves from the place that its commit
/// has then.
pub open spec fn shifted(edge: Edge, at: usize) -> Edge {
    Edge {
        src: match edge.src {
            Some(i) => Some(if i >= at { (i - at) as usize } else { 0usize }),
            None => None,
        },
        src_id: edge.src_id,
        dst: edge.dst,
        dst_id: edge.dst_id,
    }
}

/// What becomes of an edge that left the segment which was split at `at`:
/// it leaves the new segment `lower`.
pub open spec fn moved(connection: (int, int, Edge), lower: u32, at: usize) -> (int, int, Edge) {
    (lower as int, connection.1, shifted(connection.2, at))
}

/// Whether `to` tells, for each edge of `before` that leaves `segment`,
/// the index under which it stands in `after`, where it leaves `lower`:
/// each has an index of its own there, which is not that of an edge that
/// stayed.
pub open spec fn renumbers(
    before: Map<int, (int, int, Edge)>,
    after: Map<int, (int, int, Edge)>,
    segment: u32,
    lower: u32,
    at: usize,
    to: Map<int, int>,
) -> bool {
    &&& forall|e: int| #[trigger] to.contains_key(e) <==> before.contains_key(e) && before[e].0 == segment
    &&& forall|e: int| #[trigger]
        to.contains_key(e) ==> after.contains_key(to[e]) && after[to[e]] == moved(before[e], lower, at)
    &&& forall|a: int, b: int| #[trigger] to.contains_key(a) && #[trigger] to.contains_key(b) && a != b ==> to[a] != to[b]
    &&& forall|e: int, k: int|
        #[trigger] to.contains_key(e) && #[trigger] before.contains_key(k) && before[k].0 != segment ==> to[e] != k
}

/// Whether each edge of `after` is an edge of `before` that does not
/// leave `segment`, under its index, or one that `to` tells of, or the
/// edge at `extra`.
pub open spec fn only_renumbered(
    before: Map<int, (int, int, Edge)>,
    after: Map<int, (int, int, Edge)>,
    segment: u32,
    to: Map<int, int>,
    extra: Option<int>,
) -> bool {
    forall|n: int| #[trigger]
        after.contains_key(n) ==> (before.contains_key(n) && before[n].0 != segment) || Some(n) == extra || exists|e: int| #[trigger]
            to.contains_key(e) && to[e] == n
}

/// Whether `after` holds the edges of `before` when the segment `segment`
/// was split: an edge that did not leave `segment` stays as it is, under
/// its index; each edge that left `segment` now leaves `lower`, under an
/// index of its own; one more edge `link` leads from `segment` to `lower`;
/// and there are no others.
pub open spec fn rewired(
    before: Map<int, (int, int, Edge)>,
    after: Map<int, (int, int, Edge)>,
    segment: u32,
    lower: u32,
    at: usize,
    link: (int, int, Edge),
) -> bool {
    &&& forall|e: int| #[trigger]
        before.contains_key(e) && before[e].0 != segment ==> after.contains_key(e) && after[e] == before[e]
    &&& forall|e: int| #[trigger]
        before.contains_key(e) && before[e].0 == segment ==> exists|n: int| #[trigger]
            after.contains_key(n) && after[n] == moved(before[e], lower, at)
    &&& exists|n: int| #[trigger] after.contains_key(n) && after[n] == link
    &&& forall|n: int| #[trigger]
        after.contains_key(n) ==> {
            ||| (before.contains_key(n) && before[n].0 != segment && after[n] == before[n])
            ||| after[n] == link
            ||| exists|e: int| #[trigger]
                before.contains_key(e) && before[e].0 == segment && after[n] == moved(before[e], lower, at)
        }
    &&& exists|to: Map<int, int>, n: int| #[trigger]
        only_renumbered(before, after, segment, to, Some(n)) && renumbers(before, after, segment, lower, at, to)
            && is_link(before, after, segment, to, n, link)
}

/// Whether `link` stands in `after` at the index `n`, which is not that of
/// an edge that stayed nor one that `to` tells of.
pub open spec fn is_link(
    before: Map<int, (int, int, Edge)>,
    after: Map<int, (int, int, Edge)>,
    segment: u32,
    to: Map<int, int>,
    n: int,
    link: (int, int, Edge),
) -> bool {
    &&& after.contains_key(n)
    &&& after[n] == link
    &&& !(before.contains_key(n) && before[n].0 != segment)
    &&& forall|e: int| #[trigger] to.contains_key(e) ==> to[e] != n
}

/// Whether `after` holds the segments of `before` with the segment
/// `segment` split: it keeps its first `at` commits, and the others stand
/// in the new segment `lower`, which has no name.
pub open spec fn split_at(
    before: Map<int, Segment>,
    after: Map<int, Segment>,
    segment: u32,
    lower: u32,
    at: usize,
) -> bool {
    &&& before.contains_key(segment as int)
    &&& 0 < at < before[segment as int].commits@.len()
    &&& !before.contains_key(lower as int)
    &&& after.dom() == before.dom().insert(lower as int)
    &&& forall|k: int| k != segment && #[trigger] before.contains_key(k) ==> after[k] == before[k]
    &&& same_header(after[segment as int], before[segment as int])
    &&& after[segment as int].commits@ == before[segment as int].commits@.take(at as int)
    &&& after[lower as int].commits@ == before[segment as int].commits@.skip(at as int)
    &&& after[lower as int].id == lower
    &&& after[lower as int].ref_name is None
    &&& after[lower as int].metadata is None
    &&& after[lower as int].sibling_segment_id is None
}

/// The edge that links the two halves of the segment `segment`, split at `at`.
pub open spec fn link_of(before: Map<int, Segment>, segment: u32, lower: u32, at: usize) -> (int, int, Edge) {
    (
        segment as int,
        lower as int,
        Edge {
            src: Some((at - 1) as usize),
            src_id: Some(before[segment as int].commits@[at - 1].id),
            dst: Some(0usize),
            dst_id: Some(before[segment as int].commits@[at as int].id),
        },
    )
}

/// Why the graph could not be changed.
#[derive(Debug, PartialEq, Eq, Clone, Copy, Structural)]
pub enum GraphError {
    /// There is no segment, or no commit, at the place named.
    NoSuchPlace,
    /// The graph holds as many segments or edges as it can.
    Full,
}

/// A split loses no commit and no flag, and puts no commit at two places.
pub proof fn lemma_split_grows(before: Map<int, Segment>, after: Map<int, Segment>, segment: u32, lower: u32, at: usize)
    requires
        split_at(before, after, segment, lower, at),
    ensures
        grows(before, after),
        commits_once(before) ==> commits_once(after),
        forall|id: ObjectId| holds_commit(after, id) ==> holds_commit(before, id),
{
    let whole = before[segment as int].commits@;
    assert(after.contains_key(lower as int));
    assert forall|s: int, c: int| #[trigger] commit_at(before, s, c) implies exists|s2: int, c2: int| #[trigger]
        commit_at(after, s2, c2) && after[s2].commits@[c2].id == before[s].commits@[c].id && after[s2].commits@[c2].flags.has(
            before[s].commits@[c].flags,
        ) by {
        lemma_flags_order(before[s].commits@[c].flags, before[s].commits@[c].flags, before[s].commits@[c].flags);
        assert(after.contains_key(s));
        if s == segment && c >= at {
            assert(commit_at(after, lower as int, c - at));
            assert(after[lower as int].commits@[c - at] == whole[c]);
        } else {
            assert(commit_at(after, s, c));
            if s == segment {
                assert(after[s].commits@[c] == whole[c]);
            }
        }
    }
    assert forall|s: int, c: int| #[trigger] commit_at(after, s, c) implies commit_at(
        before,
        if s == lower { segment as int } else { s },
        if s == lower { c + at } else { c },
    ) && before[if s == lower { segment as int } else { s }].commits@[if s == lower { c + at } else { c }]
        == after[s].commits@[c] by {
        if s == lower {
            assert(after[s].commits@[c] == whole[c + at]);
        } else if s == segment {
            assert(after[s].commits@[c] == whole[c]);
        } else {
            assert(before.contains_key(s));
        }
    }
    if commits_once(before) {
        assert forall|s1: int, c1: int, s2: int, c2: int|
            #[trigger] commit_at(after, s1, c1) && #[trigger] commit_at(after, s2, c2)
                && after[s1].commits@[c1].id == after[s2].commits@[c2].id implies s1 == s2 && c1 == c2 by {
            let b1 = if s1 == lower { segment as int } else { s1 };
            let k1 = if s1 == lower { c1 + at } else { c1 };
            let b2 = if s2 == lower { segment as int } else { s2 };
            let k2 = if s2 == lower { c2 + at } else { c2 };
            assert(commit_at(before, b1, k1));
            assert(commit_at(before, b2, k2));
        }
    }
    assert forall|id: ObjectId| holds_commit(after, id) implies holds_commit(before, id) by {
        let (s, c) = choose|s: int, c: int| #[trigger] commit_at(after, s, c) && after[s].commits@[c].id == id;
        assert(commit_at(before, if s == lower { segment as int } else { s }, if s == lower { c + at } else { c }));
    }
}

/// Whether `after` has at most `n` segments more than `before`, and
/// finitely many if `before` has.
pub open spec fn grew_by(before: Graph, after: Graph, n: int) -> bool {
    before.segments().dom().finite() ==> after.segments().dom().finite() && after.segments().dom().len()
        <= before.segments().dom().len() + n
}

/// Whether `after` has at most `n` edges more than `before`, and finitely
/// many if `before` has.
pub open spec fn edges_grew_by(before: Graph, after: Graph, n: int) -> bool {
    before.edges().dom().finite() ==> after.edges().dom().finite() && after.edges().dom().len()
        <= before.edges().dom().len() + n
}

/// A graph stays well formed when it keeps its edges and loses no segment.
pub proof fn lemma_keeps_wf(before: Graph, after: Graph)
    requires
        before.wf(),
        after.edges() == before.edges(),
        forall|s: int| before.segments().contains_key(s) ==> after.segments().contains_key(s),
    ensures
        after.wf(),
{
    assert forall|e: int| #[trigger] after.edges().contains_key(e) implies after.segments().contains_key(
        after.edges()[e].0,
    ) && after.segments().contains_key(after.edges()[e].1) by {
        assert(before.edges().contains_key(e));
    }
}

impl Graph {
    /// The segments of the graph, by index.
    pub open spec fn segments(&self) -> Map<int, Segment> {
        graph_nodes(self.inner)
    }

    /// The edges of the graph, by index: from which segment to which, and
    /// what the edge carries.
    pub open spec fn edges(&self) -> Map<int, (int, int, Edge)> {
        graph_edges(self.inner)
    }

    /// Whether each edge leads from a segment of the graph to a segment of
    /// the graph.
    pub open spec fn wf(&self) -> bool {
        forall|e: int| #[trigger]
            self.edges().contains_key(e) ==> self.segments().contains_key(self.edges()[e].0)
                && self.segments().contains_key(self.edges()[e].1)
    }

    /// Whether the graph has room for `n` more segments: it has finitely
    /// many, and with `n` more they are no more than there are indices of
    /// 32 bits, the largest number of 32 bits standing for no index.
    pub open spec fn has_room(&self, n: int) -> bool {
        self.segments().dom().finite() && self.segments().dom().len() + n <= 0xffff_ffff
    }

    /// Whether the graph has room for `n` more edges: it has finitely many,
    /// and with `n` more they are no more than there are indices of 32
    /// bits, the largest number of 32 bits standing for no index.
    pub open spec fn has_edge_room(&self, n: int) -> bool {
        self.edges().dom().finite() && self.edges().dom().len() + n <= 0xffff_ffff
    }

    /// A graph without segments.
    pub fn new(options: Options) -> (g: Graph)
        ensures
            g.wf(),
            g.segments().dom() == Set::<int>::empty(),
            g.edges().dom() == Set::<int>::empty(),
            g.entrypoint is None,
            g.entrypoint_ref is None,
            g.extra_target is None,
            !g.hard_limit_hit,
            g.options == options,
    {
        Graph {
            inner: store_new(),
            entrypoint: None,
            entrypoint_ref: None,
            extra_target: None,
            hard_limit_hit: false,
            options,
        }
    }

    /// Adds a segment and returns its index, which the segment gets as its
    /// `id`. `None` where the graph is full; then nothing changes.
    pub fn insert_segment(&mut self, segment: Segment) -> (r: Option<u32>)
        requires
            old(self).wf(),
        ensures
            final(self).wf(),
            final(self).edges() == old(self).edges(),
            final(self).entrypoint == old(self).entrypoint,
            final(self).entrypoint_ref == old(self).entrypoint_ref,
            final(self).extra_target == old(self).extra_target,
            final(self).hard_limit_hit == old(self).hard_limit_hit,
            final(self).options == old(self).options,
            match r {
                Some(index) => !old(self).segments().contains_key(index as int) && final(self).segments()
                    == old(self).segments().insert(index as int, with_id(segment, index)),
                None => final(self).segments() == old(self).segments(),
            },
            old(self).has_room(1) ==> r is Some,
    {
        let added = store_add_node(&mut self.inner, segment);
        match added {
            None => {},
            Some(index) => {
                match self.segment_mut(index) {
                    Some(stored) => {
                        stored.id = index;
                    },
                    None => {},
                }
                assert(self.segments() =~= old(self).segments().insert(index as int, with_id(segment, index)));
            },
        }
        proof {
            assert forall|e: int| #[trigger] self.edges().contains_key(e) implies self.segments().contains_key(
                self.edges()[e].0,
            ) && self.segments().contains_key(self.edges()[e].1) by {
                assert(old(self).edges().contains_key(e));
                assert(old(self).segments().contains_key(old(self).edges()[e].0));
                assert(old(self).segments().contains_key(old(self).edges()[e].1));
            }
        }
        added
    }

    /// Adds a segment and makes it the entrypoint.
    pub fn insert_segment_set_entrypoint(&mut self, segment: Segment) -> (r: Option<u32>)
        requires
            old(self).wf(),
        ensures
            final(self).wf(),
            final(self).edges() == old(self).edges(),
            final(self).entrypoint_ref == old(self).entrypoint_ref,
            final(self).extra_target == old(self).extra_target,
            final(self).hard_limit_hit == old(self).hard_limit_hit,
            final(self).options == old(self).options,
            match r {
                Some(index) => {
                    &&& !old(self).segments().contains_key(index as int)
                    &&& final(self).segments() == old(self).segments().insert(
                        index as int,
                        with_id(segment, index),
                    )
                    &&& final(self).entrypoint == Some((index, None::<usize>))
                },
                None => final(self).segments() == old(self).segments() && final(self).entrypoint
                    == old(self).entrypoint,
            },
            old(self).has_room(1) ==> r is Some,
    {
        match self.insert_segment(segment) {
            Some(index) => {
                self.entrypoint = Some((index, None));
                Some(index)
            },
            None => None,
        }
    }

    /// The segment at `index`, if there is one.
    pub fn segment(&self, index: u32) -> (r: Option<&Segment>)
        ensures
            match r {
                Some(segment) => self.segments().contains_key(index as int) && *segment
                    == self.segments()[index as int],
                None => !self.segments().contains_key(index as int),
            },
    {
        store_node(&self.inner, index)
    }

    /// The segment at `index` to be changed in place, if there is one.
    pub fn segment_mut(&mut self, index: u32) -> (r: Option<&mut Segment>)
        ensures
            final(self).edges() == old(self).edges(),
            final(self).entrypoint == old(self).entrypoint,
            final(self).entrypoint_ref == old(self).entrypoint_ref,
            final(self).extra_target == old(self).extra_target,
            final(self).hard_limit_hit == old(self).hard_limit_hit,
            final(self).options == old(self).options,
            match r {
                Some(segment) => {
                    &&& old(self).segments().contains_key(index as int)
                    &&& *segment == old(self).segments()[index as int]
                    &&& final(self).segments() == old(self).segments().insert(index as int, *final(segment))
                },
                None => !old(self).segments().contains_key(index as int) && final(self).segments()
                    == old(self).segments(),
            },
    {
        store_node_mut(&mut self.inner, index)
    }

    /// Connects the segment `src` with the segment `dst` by the edge `edge`.
    /// Returns the index of the edge; `None`, and nothing changes, where
    /// one of the segments is missing or the graph is full.
    pub fn connect_with(&mut self, src: u32, dst: u32, edge: Edge) -> (r: Option<u32>)
        requires
            old(self).wf(),
        ensures
            final(self).wf(),
            final(self).segments() == old(self).segments(),
            final(self).entrypoint == old(self).entrypoint,
            final(self).entrypoint_ref == old(self).entrypoint_ref,
            final(self).extra_target == old(self).extra_target,
            final(self).hard_limit_hit == old(self).hard_limit_hit,
            final(self).options == old(self).options,
            match r {
                Some(index) => {
                    &&& old(self).segments().contains_key(src as int)
                    &&& old(self).segments().contains_key(dst as int)
                    &&& !old(self).edges().contains_key(index as int)
                    &&& final(self).edges() == old(self).edges().insert(index as int, (src as int, dst as int, edge))
                },
                None => final(self).edges() == old(self).edges(),
            },
            old(self).segments().contains_key(src as int) && old(self).segments().contains_key(dst as int)
                && old(self).has_edge_room(1) ==> r is Some,
    {
        if self.segment(src).is_none() || self.segment(dst).is_none() {
            return None;
        }
        let r = store_add_edge(&mut self.inner, src, dst, edge);
        proof {
            assert forall|e: int| #[trigger] self.edges().contains_key(e) implies self.segments().contains_key(
                self.edges()[e].0,
            ) && self.segments().contains_key(self.edges()[e].1) by {
                if old(self).edges().contains_key(e) {
                    assert(old(self).segments().contains_key(old(self).edges()[e].0));
                }
            }
        }
        r
    }

    /// Connects the commit `src_commit` of the segment `src` with the
    /// commit `dst_commit` of the segment `dst`; the edge names the commits
    /// by the identifiers given and, where none is given, by those found
    /// at the two places. Returns the index of the edge; `None`, and
    /// nothing changes, where one of the segments is missing or the graph
    /// is full.
    pub fn connect_segments_with_ids(
        &mut self,
        src: u32,
        src_commit: Option<usize>,
        src_id: Option<ObjectId>,
        dst: u32,
        dst_commit: Option<usize>,
        dst_id: Option<ObjectId>,
    ) -> (r: Option<u32>)
        requires
            old(self).wf(),
        ensures
            final(self).wf(),
            final(self).segments() == old(self).segments(),
            final(self).entrypoint == old(self).entrypoint,
            final(self).entrypoint_ref == old(self).entrypoint_ref,
            final(self).extra_target == old(self).extra_target,
            final(self).hard_limit_hit == old(self).hard_limit_hit,
            final(self).options == old(self).options,
            match r {
                Some(index) => {
                    &&& old(self).segments().contains_key(src as int)
                    &&& old(self).segments().contains_key(dst as int)
                    &&& !old(self).edges().contains_key(index as int)
                    &&& final(self).edges() == old(self).edges().insert(
                        index as int,
                        (
                            src as int,
                            dst as int,
                            edge_between(old(self).segments(), src, src_commit, src_id, dst, dst_commit, dst_id),
                        ),
                    )
                },
                None => final(self).edges() == old(self).edges(),
            },
            old(self).segments().contains_key(src as int) && old(self).segments().contains_key(dst as int)
                && old(self).has_edge_room(1) ==> r is Some,
    {
        let from_id = match (src_id, self.segment(src)) {
            (_, None) => {
                return None;
            },
            (Some(id), Some(_)) => Some(id),
            (None, Some(segment)) => segment.commit_id_by_index(src_commit),
        };
        let to_id = match (dst_id, self.segment(dst)) {
            (_, None) => {
                return None;
            },
            (Some(id), Some(_)) => Some(id),
            (None, Some(segment)) => segment.commit_id_by_index(dst_commit),
        };
        let edge = Edge { src: src_commit, src_id: from_id, dst: dst_commit, dst_id: to_id };
        self.connect_with(src, dst, edge)
    }

    /// Connects the commit `src_commit` of the segment `src` with the
    /// commit `dst_commit` of the segment `dst`.
    pub fn connect_segments(&mut self, src: u32, src_commit: Option<usize>, dst: u32, dst_commit: Option<usize>) -> (r:
        Option<u32>)
        requires
            old(self).wf(),
        ensures
            final(self).wf(),
            final(self).segments() == old(self).segments(),
            final(self).entrypoint == old(self).entrypoint,
            final(self).entrypoint_ref == old(self).entrypoint_ref,
            final(self).extra_target == old(self).extra_target,
            final(self).hard_limit_hit == old(self).hard_limit_hit,
            final(self).options == old(self).options,
            match r {
                Some(index) => {
                    &&& old(self).segments().contains_key(src as int)
                    &&& old(self).segments().contains_key(dst as int)
                    &&& !old(self).edges().contains_key(index as int)
                    &&& final(self).edges() == old(self).edges().insert(
                        index as int,
                        (
                            src as int,
                            dst as int,
                            edge_between(old(self).segments(), src, src_commit, None, dst, dst_commit, None),
                        ),
                    )
                },
                None => final(self).edges() == old(self).edges(),
            },
            old(self).segments().contains_key(src as int) && old(self).segments().contains_key(dst as int)
                && old(self).has_edge_room(1) ==> r is Some,
    {
        self.connect_segments_with_ids(src, src_commit, None, dst, dst_commit, None)
    }

    /// Takes the edge at `index` out of the graph and returns what it
    /// carried, if there is such an edge.
    pub fn disconnect(&mut self, index: u32) -> (r: Option<Edge>)
        requires
            old(self).wf(),
        ensures
            final(self).wf(),
            final(self).segments() == old(self).segments(),
            final(self).edges() == old(self).edges().remove(index as int),
            final(self).entrypoint == old(self).entrypoint,
            final(self).entrypoint_ref == old(self).entrypoint_ref,
            final(self).extra_target == old(self).extra_target,
            final(self).hard_limit_hit == old(self).hard_limit_hit,
            final(self).options == old(self).options,
            match r {
                Some(edge) => old(self).edges().contains_key(index as int) && old(self).edges()[index as int].2
                    == edge,
                None => !old(self).edges().contains_key(index as int),
            },
    {
        let r = store_remove_edge(&mut self.inner, index);
        proof {
            assert forall|e: int| #[trigger] self.edges().contains_key(e) implies self.segments().contains_key(
                self.edges()[e].0,
            ) && self.segments().contains_key(self.edges()[e].1) by {
                assert(old(self).edges().contains_key(e));
            }
        }
        r
    }

    /// The indices of the segments, ascending.
    pub fn segment_ids(&self) -> (r: Vec<u32>)
        ensures
            lists_nodes(r@, self.segments()),
            forall|k: int| 0 <= k < r@.len() ==> r@[k] < 0xffff_ffff,
    {
        store_node_ids(&self.inner)
    }

    /// The edges, by ascending index.
    pub fn edge_list(&self) -> (r: Vec<EdgeRecord>)
        ensures
            lists_edges(r@, self.edges()),
    {
        store_edges(&self.inner)
    }

    /// Where the commit `id` stands: its segment and its place in it.
    pub fn locate(&self, id: &ObjectId) -> (r: Option<(u32, usize)>)
        ensures
            match r {
                Some((s, c)) => commit_at(self.segments(), s as int, c as int) && self.segments()[s as int].commits@[c as int].id
                    == *id,
                None => !holds_commit(self.segments(), *id),
            },
    {
        let ids = self.segment_ids();
        let mut k: usize = 0;
        while k < ids.len()
            invariant
                k <= ids.len(),
                lists_nodes(ids@, self.segments()),
                forall|m: int, c: int|
                    0 <= m < k && #[trigger] commit_at(self.segments(), ids@[m] as int, c)
                        ==> self.segments()[ids@[m] as int].commits@[c].id != *id,
            decreases ids.len() - k,
        {
            match self.segment(ids[k]) {
                Some(segment) => {
                    match segment.commit_index_of(id) {
                        Some(c) => {
                            return Some((ids[k], c));
                        },
                        None => {},
                    }
                },
                None => {},
            }
            k += 1;
        }
        proof {
            if holds_commit(self.segments(), *id) {
                let (s, c) = choose|s: int, c: int| #[trigger]
                    commit_at(self.segments(), s, c) && self.segments()[s].commits@[c].id == *id;
                assert(self.segments().contains_key(s));
                let m = choose|m: int| 0 <= m < ids@.len() && (#[trigger] ids@[m]) == s;
                assert(commit_at(self.segments(), ids@[m] as int, c));
            }
        }
        None
    }

    /// Puts `commit` behind the last commit of the segment `segment`, and
    /// tells whether there is such a segment.
    pub fn push_commit(&mut self, segment: u32, commit: Commit) -> (r: bool)
        requires
            old(self).wf(),
        ensures
            final(self).wf(),
            final(self).edges() == old(self).edges(),
            final(self).entrypoint == old(self).entrypoint,
            final(self).entrypoint_ref == old(self).entrypoint_ref,
            final(self).extra_target == old(self).extra_target,
            final(self).hard_limit_hit == old(self).hard_limit_hit,
            final(self).options == old(self).options,
            r == old(self).segments().contains_key(segment as int),
            same_but(old(self).segments(), final(self).segments(), segment as int),
            r ==> same_header(final(self).segments()[segment as int], old(self).segments()[segment as int])
                && final(self).segments()[segment as int].commits@ == old(self).segments()[segment as int].commits@.push(
                commit,
            ),
            grows(old(self).segments(), final(self).segments()),
            commits_once(old(self).segments()) && !holds_commit(old(self).segments(), commit.id) ==> commits_once(
                final(self).segments(),
            ),
    {
        let r = match self.segment_mut(segment) {
            Some(stored) => {
                stored.commits.push(commit);
                true
            },
            None => false,
        };
        proof {
            let before = old(self).segments();
            let after = self.segments();
            assert(after.dom() =~= before.dom());
            lemma_keeps_wf(*old(self), *self);
            assert forall|s: int, c: int| #[trigger] commit_at(before, s, c) implies exists|s2: int, c2: int| #[trigger]
                commit_at(after, s2, c2) && after[s2].commits@[c2].id == before[s].commits@[c].id
                    && after[s2].commits@[c2].flags.has(before[s].commits@[c].flags) by {
                assert(commit_at(after, s, c));
                lemma_flags_order(before[s].commits@[c].flags, before[s].commits@[c].flags, before[s].commits@[c].flags);
            }
            if commits_once(before) && !holds_commit(before, commit.id) {
                assert forall|s1: int, c1: int, s2: int, c2: int|
                    #[trigger] commit_at(after, s1, c1) && #[trigger] commit_at(after, s2, c2)
                        && after[s1].commits@[c1].id == after[s2].commits@[c2].id implies s1 == s2 && c1 == c2 by {
                    let fresh1 = s1 == segment && c1 == before[s1].commits@.len();
                    let fresh2 = s2 == segment && c2 == before[s2].commits@.len();
                    if !fresh1 {
                        assert(commit_at(before, s1, c1));
                    }
                    if !fresh2 {
                        assert(commit_at(before, s2, c2));
                    }
                }
            }
        }
        r
    }

    /// Adds the flags `flags` to the commits of the segment `segment` from
    /// the place `from` on, and tells whether there is such a segment.
    pub fn add_flags(&mut self, segment: u32, from: usize, flags: CommitFlags) -> (r: bool)
        requires
            old(self).wf(),
        ensures
            final(self).wf(),
            final(self).edges() == old(self).edges(),
            final(self).entrypoint == old(self).entrypoint,
            final(self).entrypoint_ref == old(self).entrypoint_ref,
            final(self).extra_target == old(self).extra_target,
            final(self).hard_limit_hit == old(self).hard_limit_hit,
            final(self).options == old(self).options,
            r == old(self).segments().contains_key(segment as int),
            same_but(old(self).segments(), final(self).segments(), segment as int),
            r ==> {
                let before = old(self).segments()[segment as int];
                let after = final(self).segments()[segment as int];
                &&& same_header(after, before)
                &&& after.commits@.len() == before.commits@.len()
                &&& forall|c: int| 0 <= c < from && c < before.commits@.len() ==> after.commits@[c] == before.commits@[c]
                &&& forall|c: int|
                    from <= c < before.commits@.len() ==> flagged(before.commits@[c], #[trigger] after.commits@[c], flags)
            },
            grows(old(self).segments(), final(self).segments()),
            commits_once(old(self).segments()) ==> commits_once(final(self).segments()),
    {
        let r = match self.segment_mut(segment) {
            Some(stored) => {
                let ghost start = stored.commits@;
                let ghost head = *stored;
                let mut c = from;
                while c < stored.commits.len()
                    invariant
                        from <= c,
                        stored.commits@.len() == start.len(),
                        same_header(*stored, head),
                        forall|k: int| 0 <= k < from && k < start.len() ==> stored.commits@[k] == start[k],
                        forall|k: int| c <= k < start.len() ==> stored.commits@[k] == start[k],
                        forall|k: int| from <= k < c && k < start.len() ==> flagged(start[k], #[trigger] stored.commits@[k], flags),
                    decreases stored.commits.len() - c,
                {
                    let joined = stored.commits[c].flags.union(flags);
                    stored.commits[c].flags = joined;
                    c += 1;
                }
                true
            },
            None => false,
        };
        proof {
            let before = old(self).segments();
            let after = self.segments();
            assert(after.dom() =~= before.dom());
            lemma_keeps_wf(*old(self), *self);
            assert forall|s: int, c: int| #[trigger] commit_at(before, s, c) implies exists|s2: int, c2: int| #[trigger]
                commit_at(after, s2, c2) && after[s2].commits@[c2].id == before[s].commits@[c].id
                    && after[s2].commits@[c2].flags.has(before[s].commits@[c].flags) by {
                assert(commit_at(after, s, c));
                lemma_flags_order(before[s].commits@[c].flags, before[s].commits@[c].flags, flags);
                if s == segment && c >= from {
                    assert(flagged(before[s].commits@[c], after[s].commits@[c], flags));
                    let x = before[s].commits@[c].flags;
                    assert(x.joined(flags).has(x)) by {
                        let a = x.bits;
                        let b = flags.bits;
                        assert((a | b) & a == a) by (bit_vector);
                    }
                }
            }
            if commits_once(before) {
                assert forall|s1: int, c1: int, s2: int, c2: int|
                    #[trigger] commit_at(after, s1, c1) && #[trigger] commit_at(after, s2, c2)
                        && after[s1].commits@[c1].id == after[s2].commits@[c2].id implies s1 == s2 && c1 == c2 by {
                    assert(commit_at(before, s1, c1));
                    assert(commit_at(before, s2, c2));
                    if s1 == segment && c1 >= from {
                        assert(flagged(before[s1].commits@[c1], after[s1].commits@[c1], flags));
                    }
                    if s2 == segment && c2 >= from {
                        assert(flagged(before[s2].commits@[c2], after[s2].commits@[c2], flags));
                    }
                }
            }
        }
        r
    }

    /// Moves the edges that leave `segment` to `lower`, for a split at `at`.
    /// Returns whether all could be moved. They can where the graph has
    /// no more edges than there are indices: each edge is taken out before
    /// it is put in again, so there are never more.
    fn move_edges(&mut self, segment: u32, lower: u32, at: usize) -> (r: bool)
        requires
            old(self).wf(),
            old(self).segments().contains_key(segment as int),
            old(self).segments().contains_key(lower as int),
            segment != lower,
        ensures
            final(self).wf(),
            final(self).segments() == old(self).segments(),
            final(self).entrypoint == old(self).entrypoint,
            final(self).entrypoint_ref == old(self).entrypoint_ref,
            final(self).extra_target == old(self).extra_target,
            final(self).hard_limit_hit == old(self).hard_limit_hit,
            final(self).options == old(self).options,
            r ==> {
                let before = old(self).edges();
                let after = final(self).edges();
                &&& forall|e: int| #[trigger]
                    before.contains_key(e) && before[e].0 != segment ==> after.contains_key(e) && after[e]
                        == before[e]
                &&& forall|e: int| #[trigger]
                    before.contains_key(e) && before[e].0 == segment ==> exists|n: int| #[trigger]
                        after.contains_key(n) && after[n] == moved(before[e], lower, at)
                &&& forall|n: int| #[trigger]
                    after.contains_key(n) ==> {
                        ||| (before.contains_key(n) && before[n].0 != segment && after[n] == before[n])
                        ||| exists|e: int| #[trigger]
                            before.contains_key(e) && before[e].0 == segment && after[n] == moved(
                                before[e],
                                lower,
                                at,
                            )
                    }
                &&& exists|to: Map<int, int>| #[trigger]
                    renumbers(before, after, segment, lower, at, to) && only_renumbered(
                        before,
                        after,
                        segment,
                        to,
                        None,
                    )
            },
            old(self).has_edge_room(0) ==> r && final(self).edges().dom().finite() && final(self).edges().dom().len()
                == old(self).edges().dom().len(),
    {
        let list = self.edge_list();
        let ghost before = self.edges();
        let ghost mut to: Map<int, int> = Map::empty();
        let mut k: usize = 0;
        while k < list.len()
            invariant
                k <= list.len(),
                old(self).has_edge_room(0) ==> self.edges().dom().finite() && self.edges().dom().len()
                    == before.dom().len(),
                forall|e: int| #[trigger]
                    to.contains_key(e) <==> exists|j: int|
                        0 <= j < k && (#[trigger] list@[j]).index == e && list@[j].from == segment,
                forall|e: int| #[trigger]
                    to.contains_key(e) ==> self.edges().contains_key(to[e]) && self.edges()[to[e]] == moved(
                        before[e],
                        lower,
                        at,
                    ),
                forall|a: int, b: int|
                    #[trigger] to.contains_key(a) && #[trigger] to.contains_key(b) && a != b ==> to[a] != to[b],
                forall|e: int, x: int|
                    #[trigger] to.contains_key(e) && #[trigger] before.contains_key(x) && before[x].0 != segment ==> to[e]
                        != x,
                forall|e: int, j: int| #[trigger] to.contains_key(e) && k <= j < list.len() ==> to[e] != (#[trigger] list@[j]).index,
                forall|n: int| #[trigger]
                    self.edges().contains_key(n) ==> (before.contains_key(n) && before[n].0 != segment) || (exists|j: int|
                        k <= j < list.len() && (#[trigger] list@[j]).index == n) || exists|e: int| #[trigger]
                        to.contains_key(e) && to[e] == n,
                self.wf(),
                self.segments() == old(self).segments(),
                self.segments().contains_key(segment as int),
                self.segments().contains_key(lower as int),
                segment != lower,
                self.entrypoint == old(self).entrypoint,
                self.entrypoint_ref == old(self).entrypoint_ref,
                self.extra_target == old(self).extra_target,
                self.hard_limit_hit == old(self).hard_limit_hit,
                self.options == old(self).options,
                before == old(self).edges(),
                lists_edges(list@, before),
                forall|e: int| #[trigger]
                    before.contains_key(e) && before[e].0 != segment ==> self.edges().contains_key(e)
                        && self.edges()[e] == before[e],
                forall|j: int|
                    k <= j < list.len() ==> self.edges().contains_key((#[trigger] list@[j]).index as int)
                        && self.edges()[list@[j].index as int] == before[list@[j].index as int],
                forall|j: int|
                    0 <= j < k && (#[trigger] list@[j]).from == segment ==> exists|n: int| #[trigger]
                        self.edges().contains_key(n) && self.edges()[n] == moved(
                            before[list@[j].index as int],
                            lower,
                            at,
                        ),
                forall|n: int| #[trigger]
                    self.edges().contains_key(n) ==> {
                        ||| (before.contains_key(n) && self.edges()[n] == before[n] && (before[n].0 != segment
                            || exists|j: int| k <= j < list.len() && (#[trigger] list@[j]).index == n))
                        ||| exists|e: int| #[trigger]
                            before.contains_key(e) && before[e].0 == segment && self.edges()[n] == moved(
                                before[e],
                                lower,
                                at,
                            )
                    },
            decreases list.len() - k,
        {
            let record = list[k];
            let ghost now = self.edges();
            if record.from == segment {
                let removed = self.disconnect(record.index);
                let ghost cut = self.edges();
                proof {
                    assert(now.contains_key(record.index as int));
                    assert(before[record.index as int] == (record.from as int, record.to as int, record.edge));
                    assert(old(self).segments().contains_key(before[record.index as int].1));
                    assert(self.segments().contains_key(record.to as int));
                    if old(self).has_edge_room(0) {
                        assert(cut.dom() =~= now.dom().remove(record.index as int));
                        assert(cut.dom().len() == now.dom().len() - 1);
                        assert(self.has_edge_room(1));
                    }
                }
                let src = match record.edge.src {
                    Some(i) => Some(if i >= at { i - at } else { 0 }),
                    None => None,
                };
                let added = self.connect_with(
                    lower,
                    record.to,
                    Edge { src, src_id: record.edge.src_id, dst: record.edge.dst, dst_id: record.edge.dst_id },
                );
                match added {
                    None => {
                        return false;
                    },
                    Some(n) => {
                        proof {
                            let target = moved(before[record.index as int], lower, at);
                            assert(before[record.index as int] == (record.from as int, record.to as int, record.edge));
                            assert(self.edges()[n as int] == target);
                            let ghost told = to;
                            to = told.insert(record.index as int, n as int);
                            assert forall|e: int| #[trigger] to.contains_key(e) implies self.edges().contains_key(to[e])
                                && self.edges()[to[e]] == moved(before[e], lower, at) by {
                                if e != record.index {
                                    assert(told.contains_key(e));
                                    assert(told[e] != list@[k as int].index);
                                    assert(now.contains_key(told[e]));
                                    assert(cut.contains_key(told[e]));
                                }
                            }
                            assert forall|e: int| #[trigger] to.contains_key(e) <==> exists|j: int|
                                0 <= j < k + 1 && (#[trigger] list@[j]).index == e && list@[j].from == segment by {
                                if to.contains_key(e) {
                                    if e == record.index {
                                        assert(list@[k as int].index == e);
                                    } else {
                                        assert(told.contains_key(e));
                                        let j = choose|j: int|
                                            0 <= j < k && (#[trigger] list@[j]).index == e && list@[j].from == segment;
                                        assert(0 <= j < k + 1);
                                    }
                                }
                                if exists|j: int| 0 <= j < k + 1 && (#[trigger] list@[j]).index == e && list@[j].from == segment {
                                    let j = choose|j: int|
                                        0 <= j < k + 1 && (#[trigger] list@[j]).index == e && list@[j].from == segment;
                                    if j < k {
                                        assert(told.contains_key(e));
                                    }
                                }
                            }
                            assert forall|a: int, b: int|
                                #[trigger] to.contains_key(a) && #[trigger] to.contains_key(b) && a != b implies to[a]
                                != to[b] by {
                                if a != record.index {
                                    assert(told.contains_key(a));
                                    assert(told[a] != list@[k as int].index);
                                    assert(cut.contains_key(told[a]));
                                }
                                if b != record.index {
                                    assert(told.contains_key(b));
                                    assert(told[b] != list@[k as int].index);
                                    assert(cut.contains_key(told[b]));
                                }
                            }
                            assert forall|e: int, x: int|
                                #[trigger] to.contains_key(e) && #[trigger] before.contains_key(x) && before[x].0
                                    != segment implies to[e] != x by {
                                if e == record.index {
                                    assert(now.contains_key(x) && now[x] == before[x]);
                                    assert(cut.contains_key(x));
                                } else {
                                    assert(told.contains_key(e));
                                }
                            }
                            assert forall|e: int, j: int| #[trigger] to.contains_key(e) && k + 1 <= j < list.len() implies to[e]
                                != (#[trigger] list@[j]).index by {
                                if e == record.index {
                                    assert(list@[k as int].index < list@[j].index);
                                    assert(now.contains_key(list@[j].index as int));
                                    assert(cut.contains_key(list@[j].index as int));
                                } else {
                                    assert(told.contains_key(e));
                                }
                            }
                            assert forall|m: int| #[trigger] self.edges().contains_key(m) implies (before.contains_key(m)
                                && before[m].0 != segment) || (exists|j: int|
                                k + 1 <= j < list.len() && (#[trigger] list@[j]).index == m) || exists|e: int| #[trigger]
                                to.contains_key(e) && to[e] == m by {
                                if m == n {
                                    assert(to.contains_key(record.index as int) && to[record.index as int] == m);
                                } else {
                                    assert(cut.contains_key(m));
                                    assert(now.contains_key(m) && m != record.index);
                                    if !(before.contains_key(m) && before[m].0 != segment) {
                                        if exists|j: int| k <= j < list.len() && (#[trigger] list@[j]).index == m {
                                            let j = choose|j: int| k <= j < list.len() && (#[trigger] list@[j]).index == m;
                                            assert(j != k);
                                            assert(k + 1 <= j < list.len());
                                        } else {
                                            let e = choose|e: int| #[trigger] told.contains_key(e) && told[e] == m;
                                            assert(to.contains_key(e) && to[e] == m);
                                        }
                                    }
                                }
                            }
                            assert forall|e: int| #[trigger]
                                before.contains_key(e) && before[e].0 != segment implies self.edges().contains_key(e)
                                && self.edges()[e] == before[e] by {
                                assert(now.contains_key(e) && now[e] == before[e]);
                                assert(e != record.index);
                                assert(cut.contains_key(e));
                                assert(e != n);
                            }
                            assert forall|j: int| k + 1 <= j < list.len() implies self.edges().contains_key(
                                (#[trigger] list@[j]).index as int,
                            ) && self.edges()[list@[j].index as int] == before[list@[j].index as int] by {
                                assert(list@[k as int].index < list@[j].index);
                                assert(now.contains_key(list@[j].index as int));
                                assert(cut.contains_key(list@[j].index as int));
                            }
                            assert forall|j: int| 0 <= j < k + 1 && (#[trigger] list@[j]).from == segment implies exists|
                                m: int,
                            | #[trigger]
                                self.edges().contains_key(m) && self.edges()[m] == moved(
                                    before[list@[j].index as int],
                                    lower,
                                    at,
                                ) by {
                                if j < k {
                                    let m = choose|m: int| #[trigger]
                                        now.contains_key(m) && now[m] == moved(before[list@[j].index as int], lower, at);
                                    if m == record.index {
                                        assert(now[m].0 == lower);
                                        assert(before[record.index as int].0 == segment);
                                        assert(false);
                                    }
                                    assert(cut.contains_key(m) && cut[m] == now[m]);
                                    if m == n {
                                        assert(false);
                                    }
                                    assert(self.edges().contains_key(m) && self.edges()[m] == now[m]);
                                } else {
                                    assert(self.edges().contains_key(n as int));
                                }
                            }
                            assert forall|m: int| #[trigger] self.edges().contains_key(m) implies {
                                ||| (before.contains_key(m) && self.edges()[m] == before[m] && (before[m].0 != segment
                                    || exists|j: int| k + 1 <= j < list.len() && (#[trigger] list@[j]).index == m))
                                ||| exists|e: int| #[trigger]
                                    before.contains_key(e) && before[e].0 == segment && self.edges()[m] == moved(
                                        before[e],
                                        lower,
                                        at,
                                    )
                            } by {
                                if m == n {
                                    assert(before.contains_key(record.index as int));
                                } else {
                                    assert(cut.contains_key(m));
                                    assert(now.contains_key(m) && m != record.index);
                                    if before.contains_key(m) && now[m] == before[m] && before[m].0 == segment {
                                        let j = choose|j: int| k <= j < list.len() && (#[trigger] list@[j]).index == m;
                                        assert(j != k);
                                    }
                                }
                            }
                        }
                    },
                }
            } else {
                proof {
                    assert(before[record.index as int].0 != segment);
                    assert forall|e: int| #[trigger] to.contains_key(e) <==> exists|j: int|
                        0 <= j < k + 1 && (#[trigger] list@[j]).index == e && list@[j].from == segment by {
                        if to.contains_key(e) {
                            let j = choose|j: int|
                                0 <= j < k && (#[trigger] list@[j]).index == e && list@[j].from == segment;
                            assert(0 <= j < k + 1);
                        }
                        if exists|j: int| 0 <= j < k + 1 && (#[trigger] list@[j]).index == e && list@[j].from == segment {
                            let j = choose|j: int|
                                0 <= j < k + 1 && (#[trigger] list@[j]).index == e && list@[j].from == segment;
                            assert(j < k);
                        }
                    }
                    assert forall|m: int| #[trigger] self.edges().contains_key(m) implies (before.contains_key(m)
                        && before[m].0 != segment) || (exists|j: int|
                        k + 1 <= j < list.len() && (#[trigger] list@[j]).index == m) || exists|e: int| #[trigger]
                        to.contains_key(e) && to[e] == m by {
                        if !(before.contains_key(m) && before[m].0 != segment) && !(exists|e: int| #[trigger]
                            to.contains_key(e) && to[e] == m) {
                            let j = choose|j: int| k <= j < list.len() && (#[trigger] list@[j]).index == m;
                            if j == k {
                                assert(before.contains_key(m));
                                assert(self.edges()[m] == before[m]);
                            }
                            assert(k + 1 <= j < list.len());
                        }
                    }
                    assert forall|m: int| #[trigger] self.edges().contains_key(m) implies {
                        ||| (before.contains_key(m) && self.edges()[m] == before[m] && (before[m].0 != segment
                            || exists|j: int| k + 1 <= j < list.len() && (#[trigger] list@[j]).index == m))
                        ||| exists|e: int| #[trigger]
                            before.contains_key(e) && before[e].0 == segment && self.edges()[m] == moved(
                                before[e],
                                lower,
                                at,
                            )
                    } by {
                        if before.contains_key(m) && self.edges()[m] == before[m] && before[m].0 == segment {
                            let j = choose|j: int| k <= j < list.len() && (#[trigger] list@[j]).index == m;
                            assert(j != k);
                        }
                    }
                }
            }
            k += 1;
        }
        proof {
            let after = self.edges();
            assert forall|e: int| #[trigger] before.contains_key(e) && before[e].0 == segment implies exists|n: int| #[trigger]
                after.contains_key(n) && after[n] == moved(before[e], lower, at) by {
                let j = choose|j: int| 0 <= j < list@.len() && (#[trigger] list@[j]).index == e;
                assert(list@[j].from == segment);
            }
            assert forall|e: int| #[trigger] to.contains_key(e) <==> before.contains_key(e) && before[e].0 == segment by {
                if to.contains_key(e) {
                    let j = choose|j: int| 0 <= j < k && (#[trigger] list@[j]).index == e && list@[j].from == segment;
                    assert(before[list@[j].index as int] == (list@[j].from as int, list@[j].to as int, list@[j].edge));
                }
                if before.contains_key(e) && before[e].0 == segment {
                    let j = choose|j: int| 0 <= j < list@.len() && (#[trigger] list@[j]).index == e;
                    assert(list@[j].from == segment);
                }
            }
            assert(renumbers(before, after, segment, lower, at, to));
            assert(only_renumbered(before, after, segment, to, None));
        }
        true
    }

    /// Splits the segment `segment` before its commit at `at`: the commits
    /// from there on go to a new segment, to which the edges that left
    /// `segment` are moved, and an edge links the two. Returns the index
    /// of the new segment.
    ///
    /// Nothing changes where there is no such segment or `at` is not the
    /// place of a commit but the first. Where the graph is full the split
    /// may be left half done; then still no commit and no flag is lost.
    /// The graph is not full while it has room for one more segment and
    /// for one more edge.
    pub fn split_segment(&mut self, segment: u32, at: usize) -> (r: Result<u32, GraphError>)
        requires
            old(self).wf(),
        ensures
            final(self).wf(),
            final(self).entrypoint == old(self).entrypoint,
            final(self).entrypoint_ref == old(self).entrypoint_ref,
            final(self).extra_target == old(self).extra_target,
            final(self).hard_limit_hit == old(self).hard_limit_hit,
            final(self).options == old(self).options,
            grows(old(self).segments(), final(self).segments()),
            commits_once(old(self).segments()) ==> commits_once(final(self).segments()),
            forall|id: ObjectId|
                holds_commit(final(self).segments(), id) ==> holds_commit(old(self).segments(), id),
            forall|k: int| old(self).segments().contains_key(k) ==> final(self).segments().contains_key(k),
            match r {
                Ok(lower) => {
                    &&& split_at(old(self).segments(), final(self).segments(), segment, lower, at)
                    &&& rewired(
                        old(self).edges(),
                        final(self).edges(),
                        segment,
                        lower,
                        at,
                        link_of(old(self).segments(), segment, lower, at),
                    )
                },
                Err(GraphError::NoSuchPlace) => {
                    &&& !(old(self).segments().contains_key(segment as int) && 0 < at < old(self).segments()[segment as int].commits@.len())
                    &&& final(self).segments() == old(self).segments()
                    &&& final(self).edges() == old(self).edges()
                },
                Err(GraphError::Full) => old(self).segments().contains_key(segment as int) && 0 < at < old(self).segments()[segment as int].commits@.len(),
            },
            old(self).segments().contains_key(segment as int) && 0 < at < old(self).segments()[segment as int].commits@.len()
                && old(self).has_room(1) && old(self).has_edge_room(1) ==> r is Ok,
            r is Ok ==> grew_by(*old(self), *final(self), 1),
            r is Ok && old(self).has_edge_room(0) ==> edges_grew_by(*old(self), *final(self), 1),
    {
        proof {
            lemma_grows(self.segments(), self.segments(), self.segments());
        }
        let (upper_id, lower_id) = match self.segment(segment) {
            None => {
                return Err(GraphError::NoSuchPlace);
            },
            Some(found) => {
                if !(0 < at && at < found.commits.len()) {
                    return Err(GraphError::NoSuchPlace);
                }
                (found.commits[at - 1].id, found.commits[at].id)
            },
        };
        let lower = match self.insert_segment(Segment::new(None)) {
            None => {
                return Err(GraphError::Full);
            },
            Some(lower) => lower,
        };
        let ghost start = self.segments();
        let tail = match self.segment_mut(segment) {
            Some(upper) => upper.commits.split_off(at),
            None => Vec::new(),
        };
        proof {
            lemma_keeps_wf(*old(self), *self);
        }
        match self.segment_mut(lower) {
            Some(below) => {
                below.commits = tail;
            },
            None => {},
        }
        proof {
            let before = old(self).segments();
            let after = self.segments();
            lemma_keeps_wf(*old(self), *self);
            assert(after.dom() =~= before.dom().insert(lower as int));
            assert(split_at(before, after, segment, lower, at));
            lemma_split_grows(before, after, segment, lower, at);
        }
        let ghost halves = self.segments();
        if !self.move_edges(segment, lower, at) {
            return Err(GraphError::Full);
        }
        let ghost moved_edges = self.edges();
        let link = Edge { src: Some(at - 1), src_id: Some(upper_id), dst: Some(0), dst_id: Some(lower_id) };
        match self.connect_with(segment, lower, link) {
            None => Err(GraphError::Full),
            Some(n) => {
                proof {
                    let before = old(self).edges();
                    let after = self.edges();
                    let joint = link_of(old(self).segments(), segment, lower, at);
                    assert(after[n as int] == joint);
                    assert(after.contains_key(n as int));
                    assert forall|e: int| #[trigger] before.contains_key(e) && before[e].0 == segment implies exists|
                        m: int,
                    | #[trigger] after.contains_key(m) && after[m] == moved(before[e], lower, at) by {
                        let m = choose|m: int| #[trigger]
                            moved_edges.contains_key(m) && moved_edges[m] == moved(before[e], lower, at);
                        assert(after.contains_key(m));
                    }
                    assert forall|m: int| #[trigger] after.contains_key(m) implies {
                        ||| (before.contains_key(m) && before[m].0 != segment && after[m] == before[m])
                        ||| after[m] == joint
                        ||| exists|e: int| #[trigger]
                            before.contains_key(e) && before[e].0 == segment && after[m] == moved(before[e], lower, at)
                    } by {
                        if m != n {
                            assert(moved_edges.contains_key(m));
                        }
                    }
                    let to = choose|to: Map<int, int>| #[trigger]
                        renumbers(before, moved_edges, segment, lower, at, to) && only_renumbered(
                            before,
                            moved_edges,
                            segment,
                            to,
                            None,
                        );
                    assert(renumbers(before, after, segment, lower, at, to)) by {
                        assert forall|e: int| #[trigger] to.contains_key(e) implies after.contains_key(to[e]) && after[to[e]]
                            == moved(before[e], lower, at) by {
                            assert(moved_edges.contains_key(to[e]));
                        }
                    }
                    assert(only_renumbered(before, after, segment, to, Some(n as int))) by {
                        assert forall|m: int| #[trigger] after.contains_key(m) implies (before.contains_key(m)
                            && before[m].0 != segment) || Some(m) == Some(n as int) || exists|e: int| #[trigger]
                            to.contains_key(e) && to[e] == m by {
                            if m != n {
                                assert(moved_edges.contains_key(m));
                            }
                        }
                    }
                    assert(is_link(before, after, segment, to, n as int, joint)) by {
                        assert forall|e: int| #[trigger] to.contains_key(e) implies to[e] != n by {
                            assert(moved_edges.contains_key(to[e]));
                        }
                        if before.contains_key(n as int) && before[n as int].0 != segment {
                            assert(moved_edges.contains_key(n as int));
                        }
                    }
                }
                Ok(lower)
            },
        }
    }
}

} // verus!
