//! The derived dependency graph is a petgraph `Graph`. These items are the only
//! contact with it: its contents are named by `graph_nodes` and `graph_edges`.

use petgraph::graph::NodeIndex;
use petgraph::Graph;
use vstd::prelude::*;

use crate::model::TaskNode;

verus! {

/// petgraph's `Graph`, opaque: its contents are seen only through
/// `graph_nodes` and `graph_edges`.
#[verifier::external_type_specification]
#[verifier::external_body]
#[verifier::reject_recursive_types(N)]
#[verifier::reject_recursive_types(E)]
#[verifier::reject_recursive_types(Ty)]
#[verifier::reject_recursive_types(Ix)]
pub struct ExGraph<N, E, Ty, Ix>(Graph<N, E, Ty, Ix>);

/// petgraph's `Directed` edge kind, the default of `Graph`.
#[verifier::external_type_specification]
#[verifier::external_body]
pub struct ExDirected(petgraph::Directed);

/// The node weights of a graph, in order of their indices.
pub uninterp spec fn graph_nodes(g: Graph<TaskNode, bool>) -> Seq<(Seq<char>, bool, bool)>;

/// The edges of a graph as (source index, target index, weight), in order of
/// their indices.
pub uninterp spec fn graph_edges(g: Graph<TaskNode, bool>) -> Seq<(int, int, bool)>;

/// The largest node or edge count: petgraph's default index type is `u32` and
/// reserves its maximum value.
pub const GRAPH_INDEX_LIMIT: usize = 0xffff_ffff;

/// Relies on petgraph's `Graph::new`: a directed graph with no nodes and no edges.
#[verifier::external_body]
pub(crate) fn new_graph() -> (g: Graph<TaskNode, bool>)
    ensures
        graph_nodes(g) == Seq::<(Seq<char>, bool, bool)>::empty(),
        graph_edges(g) == Seq::<(int, int, bool)>::empty(),
{
    Graph::new()
}

/// Relies on petgraph's `Graph::add_node`: the node is appended, its index is
/// the former node count, and the edges stay; it panics at the index limit.
#[verifier::external_body]
pub(crate) fn graph_add_node(g: &mut Graph<TaskNode, bool>, node: TaskNode) -> (r: usize)
    requires
        graph_nodes(*old(g)).len() < GRAPH_INDEX_LIMIT,
    ensures
        graph_nodes(*final(g)) == graph_nodes(*old(g)).push(node@),
        graph_edges(*final(g)) == graph_edges(*old(g)),
        r == graph_nodes(*old(g)).len(),
{
    g.add_node(node).index()
}

/// Relies on petgraph's `Graph::add_edge`: the edge is appended and the nodes
/// stay; it panics when an endpoint is not a node or at the index limit.
#[verifier::external_body]
pub(crate) fn graph_add_edge(g: &mut Graph<TaskNode, bool>, from: usize, to: usize, weight: bool)
    requires
        from < graph_nodes(*old(g)).len(),
        to < graph_nodes(*old(g)).len(),
        graph_edges(*old(g)).len() < GRAPH_INDEX_LIMIT,
    ensures
        graph_nodes(*final(g)) == graph_nodes(*old(g)),
        graph_edges(*final(g)) == graph_edges(*old(g)).push((from as int, to as int, weight)),
{
    g.add_edge(NodeIndex::new(from), NodeIndex::new(to), weight);
}

} // verus!
