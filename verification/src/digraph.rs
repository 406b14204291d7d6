//! The directed graph of `petgraph` that a DAG is kept in.
//!
//! The weight of a node is the place of its payload. The graph only grows:
//! nothing here takes a node or an edge away, so the nodes and the edges keep
//! the numbers they were given when they were added.
use vstd::prelude::*;

use crate::topology::{insertion_order, is_acyclic, is_topological_order, on_cycle};
use petgraph::graph::DiGraph;

verus! {

#[verifier::external_type_specification]
#[verifier::external_body]
#[verifier::reject_recursive_types(N)]
#[verifier::reject_recursive_types(E)]
#[verifier::reject_recursive_types(Ty)]
#[verifier::reject_recursive_types(Ix)]
pub struct ExGraph<N, E, Ty, Ix>(petgraph::graph::Graph<N, E, Ty, Ix>);

#[verifier::external_type_specification]
#[verifier::external_body]
pub struct ExDirected(petgraph::Directed);

/// The handle of a node: its place in the order in which nodes were added.
#[derive(Clone, Copy, Debug, PartialEq, Eq, PartialOrd, Ord, Hash, Structural)]
pub struct NodeIndex(pub u32);

impl NodeIndex {
    /// The number of the node.
    pub open spec fn position(self) -> int {
        self.0 as int
    }
}

/// The weights of the nodes of `graph`, in the order in which they were added.
pub uninterp spec fn graph_nodes(graph: DiGraph<usize, ()>) -> Seq<usize>;

/// The endpoints of the edges of `graph`, in the order in which they were added.
pub uninterp spec fn graph_edges(graph: DiGraph<usize, ()>) -> Seq<(int, int)>;

/// What `petgraph::algo::toposort` answers for a graph with `nodes` nodes and
/// `edges`: the nodes in topological order, or a node on a cycle. Nodes are
/// visited by number and edges in the order in which they were added, so the
/// answer hangs on nothing else.
pub uninterp spec fn toposort_result(nodes: nat, edges: Seq<(int, int)>) -> Result<
    Seq<int>,
    int,
>;

/// What a topological sort answers: the nodes in their insertion order, or the
/// node on a cycle that `petgraph::algo::toposort` finds.
pub open spec fn topo_result(nodes: nat, edges: Seq<(int, int)>) -> Result<Seq<int>, int> {
    if is_acyclic(nodes, edges) {
        Ok(insertion_order(nodes, edges))
    } else {
        Err(toposort_result(nodes, edges)->Err_0)
    }
}

/// The numbers of the nodes in `handles`.
pub open spec fn positions(handles: Seq<NodeIndex>) -> Seq<int> {
    handles.map_values(|handle: NodeIndex| handle.position())
}

/// The number of a node is the one that its handle holds.
pub proof fn positions_are_the_numbers(handles: Seq<NodeIndex>, k: int)
    ensures
        positions(handles).len() == handles.len(),
        0 <= k < handles.len() ==> positions(handles)[k] == handles[k].0,
{
}

/// The edge leads into `node`.
pub open spec fn ends_at(node: int) -> spec_fn((int, int)) -> bool {
    |edge: (int, int)| edge.1 == node
}

/// The edge leads out of `node`.
pub open spec fn starts_at(node: int) -> spec_fn((int, int)) -> bool {
    |edge: (int, int)| edge.0 == node
}

/// The sources of the edges into `node`, those of later edges first.
pub open spec fn predecessors(edges: Seq<(int, int)>, node: int) -> Seq<int> {
    edges.reverse().filter(ends_at(node)).map_values(|edge: (int, int)| edge.0)
}

/// The targets of the edges out of `node`, those of later edges first.
pub open spec fn successors(edges: Seq<(int, int)>, node: int) -> Seq<int> {
    edges.reverse().filter(starts_at(node)).map_values(|edge: (int, int)| edge.1)
}

/// `petgraph::graph::Graph::new`: a graph without nodes and edges.
#[verifier::external_body]
pub(crate) fn new_graph() -> (graph: DiGraph<usize, ()>)
    ensures
        graph_nodes(graph) == Seq::<usize>::empty(),
        graph_edges(graph) == Seq::<(int, int)>::empty(),
{
    DiGraph::new()
}

/// `clone` of `petgraph::graph::Graph`: a graph with the same nodes and edges.
#[verifier::external_body]
pub(crate) fn clone_graph(graph: &DiGraph<usize, ()>) -> (copy: DiGraph<usize, ()>)
    ensures
        graph_nodes(copy) == graph_nodes(*graph),
        graph_edges(copy) == graph_edges(*graph),
{
    graph.clone()
}

/// `petgraph::graph::Graph::add_node`: the new node comes last and its handle
/// is the number of nodes there were. It panics on a graph that holds as many
/// nodes as its `u32` handles can tell apart.
#[verifier::external_body]
pub(crate) fn add_node(graph: &mut DiGraph<usize, ()>, weight: usize) -> (handle: NodeIndex)
    requires
        graph_nodes(*old(graph)).len() < u32::MAX,
    ensures
        graph_nodes(*final(graph)) == graph_nodes(*old(graph)).push(weight),
        graph_edges(*final(graph)) == graph_edges(*old(graph)),
        handle.position() == graph_nodes(*old(graph)).len(),
{
    NodeIndex(graph.add_node(weight).index() as u32)
}

/// `petgraph::graph::Graph::add_edge`: the new edge comes last. It panics where
/// an endpoint is not in the graph, and on a graph that holds as many edges as
/// its `u32` handles can tell apart.
#[verifier::external_body]
pub(crate) fn add_edge(graph: &mut DiGraph<usize, ()>, from: NodeIndex, to: NodeIndex)
    requires
        from.position() < graph_nodes(*old(graph)).len(),
        to.position() < graph_nodes(*old(graph)).len(),
        graph_edges(*old(graph)).len() < u32::MAX,
    ensures
        graph_nodes(*final(graph)) == graph_nodes(*old(graph)),
        graph_edges(*final(graph)) == graph_edges(*old(graph)).push(
            (from.position(), to.position()),
        ),
{
    graph.add_edge(from.0.into(), to.0.into(), ());
}

/// `petgraph::graph::Graph::find_edge`, which finds an edge from `from` to `to`
/// exactly where the graph holds one.
#[verifier::external_body]
pub(crate) fn has_edge(graph: &DiGraph<usize, ()>, from: NodeIndex, to: NodeIndex) -> (found: bool)
    ensures
        found == graph_edges(*graph).contains((from.position(), to.position())),
{
    graph.find_edge(from.0.into(), to.0.into()).is_some()
}

/// `petgraph::graph::Graph::node_count`: how many nodes there are.
#[verifier::external_body]
pub(crate) fn node_count(graph: &DiGraph<usize, ()>) -> (count: usize)
    ensures
        count == graph_nodes(*graph).len(),
{
    graph.node_count()
}

/// `petgraph::graph::Graph::edge_count`: how many edges there are.
#[verifier::external_body]
pub(crate) fn edge_count(graph: &DiGraph<usize, ()>) -> (count: usize)
    ensures
        count == graph_edges(*graph).len(),
{
    graph.edge_count()
}

/// `petgraph::graph::Graph::node_weight`: the weight of a node, where the graph
/// has the node.
#[verifier::external_body]
pub(crate) fn node_weight(graph: &DiGraph<usize, ()>, node: NodeIndex) -> (weight: Option<usize>)
    ensures
        weight == (if node.position() < graph_nodes(*graph).len() {
            Some(graph_nodes(*graph)[node.position()])
        } else {
            None
        }),
{
    graph.node_weight(node.0.into()).copied()
}

/// `petgraph::graph::Graph::edge_endpoints`: the endpoints of an edge, where the
/// graph has the edge. Edges are numbered in the order in which they were added.
#[verifier::external_body]
pub(crate) fn edge_endpoints(graph: &DiGraph<usize, ()>, edge: u32) -> (endpoints: Option<
    (NodeIndex, NodeIndex),
>)
    ensures
        match endpoints {
            Some((from, to)) => {
                &&& edge < graph_edges(*graph).len()
                &&& graph_edges(*graph)[edge as int] == (from.position(), to.position())
            },
            None => edge >= graph_edges(*graph).len(),
        },
{
    let (from, to) = graph.edge_endpoints(edge.into())?;
    Some((NodeIndex(from.index() as u32), NodeIndex(to.index() as u32)))
}

/// `petgraph::graph::Graph::neighbors_directed` against the edges: the nodes
/// with an edge into `node`, those of later edges first, and none for a node
/// that is not in the graph.
#[verifier::external_body]
pub(crate) fn incoming_neighbors(graph: &DiGraph<usize, ()>, node: NodeIndex) -> (found: Vec<
    NodeIndex,
>)
    ensures
        positions(found@) == predecessors(graph_edges(*graph), node.position()),
{
    graph.neighbors_directed(node.0.into(), petgraph::Direction::Incoming).map(
        |n| NodeIndex(n.index() as u32),
    ).collect()
}

/// `petgraph::graph::Graph::neighbors_directed` along the edges: the nodes with
/// an edge from `node`, those of later edges first, and none for a node that is
/// not in the graph.
#[verifier::external_body]
pub(crate) fn outgoing_neighbors(graph: &DiGraph<usize, ()>, node: NodeIndex) -> (found: Vec<
    NodeIndex,
>)
    ensures
        positions(found@) == successors(graph_edges(*graph), node.position()),
{
    graph.neighbors_directed(node.0.into(), petgraph::Direction::Outgoing).map(
        |n| NodeIndex(n.index() as u32),
    ).collect()
}

/// `petgraph::algo::toposort`: the nodes in topological order, or, where the
/// graph has a cycle, a node that takes part in one. Which order and which node
/// is left to `toposort_result`.
#[verifier::external_body]
pub(crate) fn toposort(graph: &DiGraph<usize, ()>) -> (sorted: Result<Vec<NodeIndex>, NodeIndex>)
    ensures
        toposort_result(graph_nodes(*graph).len(), graph_edges(*graph)) == match sorted {
            Ok(order) => Ok::<Seq<int>, int>(positions(order@)),
            Err(node) => Err(node.position()),
        },
        match sorted {
            Ok(order) => is_topological_order(
                graph_nodes(*graph).len(),
                graph_edges(*graph),
                positions(order@),
            ),
            Err(node) => {
                &&& node.position() < graph_nodes(*graph).len()
                &&& on_cycle(graph_edges(*graph), node.position())
            },
        },
{
    match petgraph::algo::toposort(graph, None) {
        Ok(order) => Ok(order.into_iter().map(|n| NodeIndex(n.index() as u32)).collect()),
        Err(cycle) => Err(NodeIndex(cycle.node_id().index() as u32)),
    }
}

} // verus!
