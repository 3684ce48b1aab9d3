//! The segments and edges of a graph, held by a stable graph: indices stay
//! valid when edges are removed.

use petgraph::stable_graph::{EdgeIndex, NodeIndex, StableGraph};
use petgraph::visit::{EdgeRef, IntoEdgeReferences};
use vstd::prelude::*;

use crate::graph::segment::{Edge, Segment};

verus! {

/// `petgraph::stable_graph::StableGraph`, carried as it is: what it holds
/// is seen through [`graph_nodes`] and [`graph_edges`] only.
#[verifier::external_type_specification]
#[verifier::external_body]
#[verifier::reject_recursive_types(N)]
#[verifier::reject_recursive_types(E)]
#[verifier::reject_recursive_types(Ty)]
#[verifier::reject_recursive_types(Ix)]
pub struct ExStableGraph<N, E, Ty, Ix>(StableGraph<N, E, Ty, Ix>);

/// `petgraph::Directed`, the marker of a graph whose edges have a direction.
#[verifier::external_type_specification]
#[verifier::external_body]
pub struct ExDirected(petgraph::Directed);

/// The segments that the graph holds, by their index.
pub uninterp spec fn graph_nodes(g: StableGraph<Segment, Edge>) -> Map<int, Segment>;

/// The edges that the graph holds, by their index: the index of the
/// segment an edge comes from, that of the segment it leads to, and what
/// it carries.
pub uninterp spec fn graph_edges(g: StableGraph<Segment, Edge>) -> Map<int, (int, int, Edge)>;

/// `StableGraph::new` makes a graph without nodes and edges.
#[verifier::external_body]
pub(crate) fn store_new() -> (store: StableGraph<Segment, Edge>)
    ensures
        graph_nodes(store).dom() == Set::<int>::empty(),
        graph_edges(store).dom() == Set::<int>::empty(),
{
    StableGraph::new()
}

/// `StableGraph::try_add_node` stores the segment under an index that was
/// free and returns the index; it refuses, and leaves what the graph
/// holds as it is, when no index is left. An index is left as long as the
/// graph holds fewer nodes than the largest number of 32 bits, which stands
/// for no index: the graph takes an index that a removal left free, and
/// else the next one, which is the number of its nodes.
#[verifier::external_body]
pub(crate) fn store_add_node(g: &mut StableGraph<Segment, Edge>, segment: Segment) -> (r: Option<u32>)
    ensures
        graph_edges(*final(g)) == graph_edges(*old(g)),
        match r {
            Some(index) => !graph_nodes(*old(g)).contains_key(index as int) && graph_nodes(*final(g))
                == graph_nodes(*old(g)).insert(index as int, segment),
            None => graph_nodes(*final(g)) == graph_nodes(*old(g)),
        },
        graph_nodes(*old(g)).dom().finite() && graph_nodes(*old(g)).dom().len() < 0xffff_ffff ==> r is Some,
{
    match g.try_add_node(segment) {
        Ok(index) => Some(index.index() as u32),
        Err(_) => None,
    }
}

/// `StableGraph::node_weight` gives the segment at an index, if there is one.
#[verifier::external_body]
pub(crate) fn store_node(g: &StableGraph<Segment, Edge>, index: u32) -> (r: Option<&Segment>)
    ensures
        match r {
            Some(segment) => graph_nodes(*g).contains_key(index as int) && *segment == graph_nodes(*g)[index as int],
            None => !graph_nodes(*g).contains_key(index as int),
        },
{
    g.node_weight(NodeIndex::new(index as usize))
}

/// `StableGraph::node_weight_mut` gives the segment at an index to be
/// changed in place, if there is one; nothing else changes.
#[verifier::external_body]
pub(crate) fn store_node_mut(g: &mut StableGraph<Segment, Edge>, index: u32) -> (r: Option<&mut Segment>)
    ensures
        graph_edges(*final(g)) == graph_edges(*old(g)),
        match r {
            Some(segment) => {
                &&& graph_nodes(*old(g)).contains_key(index as int)
                &&& *segment == graph_nodes(*old(g))[index as int]
                &&& graph_nodes(*final(g)) == graph_nodes(*old(g)).insert(index as int, *final(segment))
            },
            None => !graph_nodes(*old(g)).contains_key(index as int) && graph_nodes(*final(g)) == graph_nodes(
                *old(g),
            ),
        },
{
    g.node_weight_mut(NodeIndex::new(index as usize))
}

/// `StableGraph::try_add_edge` stores an edge between two segments of the
/// graph under an index that was free and returns the index; it refuses,
/// and leaves what the graph holds as it is, when no index is left. An
/// index is left as long as the graph holds fewer edges than the largest
/// number of 32 bits, which stands for no index: the graph takes an index
/// that a removal left free, and else the next one, which is the number
/// of its edges.
#[verifier::external_body]
pub(crate) fn store_add_edge(g: &mut StableGraph<Segment, Edge>, from: u32, to: u32, edge: Edge) -> (r: Option<u32>)
    requires
        graph_nodes(*old(g)).contains_key(from as int),
        graph_nodes(*old(g)).contains_key(to as int),
    ensures
        graph_nodes(*final(g)) == graph_nodes(*old(g)),
        match r {
            Some(index) => !graph_edges(*old(g)).contains_key(index as int) && graph_edges(*final(g))
                == graph_edges(*old(g)).insert(index as int, (from as int, to as int, edge)),
            None => graph_edges(*final(g)) == graph_edges(*old(g)),
        },
        graph_edges(*old(g)).dom().finite() && graph_edges(*old(g)).dom().len() < 0xffff_ffff ==> r is Some,
{
    match g.try_add_edge(NodeIndex::new(from as usize), NodeIndex::new(to as usize), edge) {
        Ok(index) => Some(index.index() as u32),
        Err(_) => None,
    }
}

/// `StableGraph::remove_edge` takes the edge at an index out of the graph
/// and returns what it carried, if there is such an edge; nothing else
/// changes.
#[verifier::external_body]
pub(crate) fn store_remove_edge(g: &mut StableGraph<Segment, Edge>, index: u32) -> (r: Option<Edge>)
    ensures
        graph_nodes(*final(g)) == graph_nodes(*old(g)),
        graph_edges(*final(g)) == graph_edges(*old(g)).remove(index as int),
        match r {
            Some(edge) => graph_edges(*old(g)).contains_key(index as int) && graph_edges(*old(g))[index as int].2
                == edge,
            None => !graph_edges(*old(g)).contains_key(index as int),
        },
{
    g.remove_edge(EdgeIndex::new(index as usize))
}

/// An edge as it is listed: its index, the index of the segment it comes
/// from, that of the segment it leads to, and what it carries.
#[derive(Debug, PartialEq, Eq, Clone, Copy)]
pub struct EdgeRecord {
    pub index: u32,
    pub from: u32,
    pub to: u32,
    pub edge: Edge,
}

/// Whether `list` holds the edges of `edges`, each once, by ascending index.
pub open spec fn lists_edges(list: Seq<EdgeRecord>, edges: Map<int, (int, int, Edge)>) -> bool {
    &&& forall|k: int|
        0 <= k < list.len() ==> edges.contains_key((#[trigger] list[k]).index as int) && edges[list[k].index as int]
            == (list[k].from as int, list[k].to as int, list[k].edge)
    &&& forall|a: int, b: int| 0 <= a < b < list.len() ==> (#[trigger] list[a]).index < (#[trigger] list[b]).index
    &&& forall|index: int| #[trigger]
        edges.contains_key(index) ==> exists|k: int| 0 <= k < list.len() && (#[trigger] list[k]).index == index
}

/// Whether `list` holds the indices of `nodes`, each once, ascending.
pub open spec fn lists_nodes(list: Seq<u32>, nodes: Map<int, Segment>) -> bool {
    &&& forall|k: int| 0 <= k < list.len() ==> nodes.contains_key(#[trigger] list[k] as int)
    &&& forall|a: int, b: int| 0 <= a < b < list.len() ==> (#[trigger] list[a]) < (#[trigger] list[b])
    &&& forall|index: int| #[trigger]
        nodes.contains_key(index) ==> exists|k: int| 0 <= k < list.len() && (#[trigger] list[k]) == index
}

/// `StableGraph::edge_references` walks the edges of the graph by
/// ascending index; each is listed with its ends and what it carries.
#[verifier::external_body]
pub(crate) fn store_edges(g: &StableGraph<Segment, Edge>) -> (r: Vec<EdgeRecord>)
    ensures
        lists_edges(r@, graph_edges(*g)),
{
    g.edge_references().map(
        |e|
            EdgeRecord {
                index: e.id().index() as u32,
                from: e.source().index() as u32,
                to: e.target().index() as u32,
                edge: *e.weight(),
            },
    ).collect()
}

/// `StableGraph::node_indices` walks the indices of the segments of the
/// graph in ascending order. Each is below the largest number of 32 bits,
/// which stands for no index: the graph never takes it.
#[verifier::external_body]
pub(crate) fn store_node_ids(g: &StableGraph<Segment, Edge>) -> (r: Vec<u32>)
    ensures
        lists_nodes(r@, graph_nodes(*g)),
        forall|k: int| 0 <= k < r@.len() ==> r@[k] < 0xffff_ffff,
{
    g.node_indices().map(|n| n.index() as u32).collect()
}

} // verus!
