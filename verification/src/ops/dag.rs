//! The petgraph graph that holds task edges, as Verus sees it: the task IDs
//! in its nodes and the node positions its edges join.
use vstd::prelude::*;

use crate::models::EdgeType;
use petgraph::graph::{DiGraph, NodeIndex};

verus! {

#[verifier::external_type_specification]
#[verifier::external_body]
#[verifier::reject_recursive_types(N)]
#[verifier::reject_recursive_types(E)]
#[verifier::reject_recursive_types(Ty)]
#[verifier::reject_recursive_types(Ix)]
pub struct ExGraph<N, E, Ty, Ix>(petgraph::graph::Graph<N, E, Ty, Ix>);

#[verifier::external_type_specification]
#[verifier::external_body]
pub struct ExDirected(petgraph::Directed);

/// The task ID stored in each node of the graph, by node position.
pub uninterp spec fn graph_nodes(g: DiGraph<i64, EdgeType>) -> Seq<i64>;

/// The edges of the graph as (source, target) node positions, in the order
/// they were added.
pub uninterp spec fn graph_edges(g: DiGraph<i64, EdgeType>) -> Seq<(usize, usize)>;

/// Every edge goes from a node of lower rank to one of higher rank.
pub open spec fn ranks_edges(edges: Seq<(usize, usize)>, rank: spec_fn(int) -> nat) -> bool {
    forall|k: int| 0 <= k < edges.len() ==> rank((#[trigger] edges[k]).0 as int) < rank(edges[k].1 as int)
}

/// The edges form no cycle: some ranking of the nodes puts every edge uphill.
pub open spec fn is_acyclic(edges: Seq<(usize, usize)>) -> bool {
    exists|rank: spec_fn(int) -> nat| ranks_edges(edges, rank)
}

/// `Graph::new`: a directed graph with no nodes and no edges.
#[verifier::external_body]
pub(crate) fn new_graph() -> (g: DiGraph<i64, EdgeType>)
    ensures
        graph_nodes(g) == Seq::<i64>::empty(),
        graph_edges(g) == Seq::<(usize, usize)>::empty(),
{
    DiGraph::new()
}

/// `Graph::add_node`: appends a node holding `id` and returns its position
/// (the node count before the call). petgraph panics when the count has
/// reached the largest `u32`, which `requires` rules out.
#[verifier::external_body]
pub(crate) fn graph_add_node(g: &mut DiGraph<i64, EdgeType>, id: i64) -> (pos: usize)
    requires
        graph_nodes(*old(g)).len() < 0xffff_ffff,
    ensures
        pos == graph_nodes(*old(g)).len(),
        graph_nodes(*final(g)) == graph_nodes(*old(g)).push(id),
        graph_edges(*final(g)) == graph_edges(*old(g)),
{
    g.add_node(id).index()
}

/// `Graph::add_edge`: appends an edge between the nodes at positions `a` and
/// `b`. The edge's weight is stored too; the contract does not speak of it.
/// petgraph panics on a position past the last node or when the edge count
/// has reached the largest `u32`, which `requires` rules out.
#[verifier::external_body]
pub(crate) fn graph_add_edge(g: &mut DiGraph<i64, EdgeType>, a: usize, b: usize, weight: EdgeType)
    requires
        a < graph_nodes(*old(g)).len(),
        b < graph_nodes(*old(g)).len(),
        graph_edges(*old(g)).len() < 0xffff_ffff,
    ensures
        graph_nodes(*final(g)) == graph_nodes(*old(g)),
        graph_edges(*final(g)) == graph_edges(*old(g)).push((a, b)),
{
    g.add_edge(NodeIndex::new(a), NodeIndex::new(b), weight);
}

/// Indexing a graph by a node: the task ID held at position `pos`. petgraph
/// panics on a position past the last node, which `requires` rules out.
#[verifier::external_body]
pub(crate) fn graph_node_id(g: &DiGraph<i64, EdgeType>, pos: usize) -> (id: i64)
    requires
        pos < graph_nodes(*g).len(),
    ensures
        id == graph_nodes(*g)[pos as int],
{
    g[NodeIndex::new(pos)]
}

/// `petgraph::algo::is_cyclic_directed`: whether the graph has a cycle.
#[verifier::external_body]
pub(crate) fn graph_is_cyclic(g: &DiGraph<i64, EdgeType>) -> (cyclic: bool)
    ensures
        cyclic == !is_acyclic(graph_edges(*g)),
{
    petgraph::algo::is_cyclic_directed(g)
}

} // verus!
