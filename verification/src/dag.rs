//! A directed graph of tasks, its topological order and its cycle check.
use vstd::prelude::*;

use crate::digraph::{
    self, ends_at, graph_edges, graph_nodes, positions, predecessors, starts_at, successors,
    topo_result, NodeIndex,
};
use crate::text::{append_decimal, decimal};
use crate::topology::{
    earliest_ready_node_is_taken, edges_in_range, insertion_order_is_topological,
    insertion_order_is_unique, is_acyclic, is_first_ready, is_ready, is_topological_order,
    lemma_acyclic_has_ready, lemma_distinct_numbers, on_cycle, ordered_graph_is_acyclic,
    takes_first_ready,
};
use petgraph::graph::DiGraph;

verus! {

/// Errors of [`Dag`] changes and queries.
#[derive(Clone, Copy, Debug, PartialEq, Eq, Structural)]
pub enum DagError {
    /// `add_edge` was given a node that is not in the DAG.
    UnknownNode(NodeIndex),
    /// The graph has a cycle; the node lies on one.
    Cycle(NodeIndex),
    /// The edge is in the DAG already.
    DuplicateEdge { from: NodeIndex, to: NodeIndex },
}

/// A handle as people see it.
pub open spec fn handle_text(node: NodeIndex) -> Seq<char> {
    "NodeIndex("@ + decimal(node.0 as nat) + ")"@
}

/// Writes a handle at the end of `out`.
fn append_handle(out: &mut String, node: NodeIndex)
    ensures
        final(out)@ == old(out)@ + handle_text(node),
{
    let ghost before = out@;
    out.append("NodeIndex(");
    append_decimal(out, node.0 as u64);
    out.append(")");
    assert(out@ =~= before + handle_text(node));
}

impl DagError {
    /// The message for people.
    pub open spec fn text(self) -> Seq<char> {
        match self {
            DagError::UnknownNode(node) => "unknown node: "@ + handle_text(node),
            DagError::Cycle(node) => "DAG contains a cycle through node "@ + handle_text(node),
            DagError::DuplicateEdge { from, to } => "duplicate edge "@ + handle_text(from)
                + " -> "@ + handle_text(to),
        }
    }

    /// The message for people.
    pub fn message(&self) -> (text: String)
        ensures
            text@ == self.text(),
            match *self {
                DagError::UnknownNode(node) => text@ == "unknown node: NodeIndex("@ + decimal(
                    node.0 as nat,
                ) + ")"@,
                DagError::Cycle(node) => text@ == "DAG contains a cycle through node NodeIndex("@
                    + decimal(node.0 as nat) + ")"@,
                DagError::DuplicateEdge { from, to } => text@ == "duplicate edge NodeIndex("@
                    + decimal(from.0 as nat) + ") -> NodeIndex("@ + decimal(to.0 as nat) + ")"@,
            },
    {
        proof {
            messages_in_full(*self);
        }
        match *self {
            DagError::UnknownNode(node) => {
                let mut text = "unknown node: ".to_owned();
                append_handle(&mut text, node);
                text
            },
            DagError::Cycle(node) => {
                let mut text = "DAG contains a cycle through node ".to_owned();
                append_handle(&mut text, node);
                text
            },
            DagError::DuplicateEdge { from, to } => {
                let mut text = "duplicate edge ".to_owned();
                append_handle(&mut text, from);
                text.append(" -> ");
                append_handle(&mut text, to);
                text
            },
        }
    }
}

/// The messages for people, word for word.
pub proof fn messages_in_full(error: DagError)
    ensures
        error.text() == match error {
            DagError::UnknownNode(node) => "unknown node: NodeIndex("@ + decimal(node.0 as nat)
                + ")"@,
            DagError::Cycle(node) => "DAG contains a cycle through node NodeIndex("@ + decimal(
                node.0 as nat,
            ) + ")"@,
            DagError::DuplicateEdge { from, to } => "duplicate edge NodeIndex("@ + decimal(
                from.0 as nat,
            ) + ") -> NodeIndex("@ + decimal(to.0 as nat) + ")"@,
        },
{
    reveal_strlit("NodeIndex(");
    reveal_strlit(")");
    reveal_strlit(" -> ");
    reveal_strlit("unknown node: ");
    reveal_strlit("unknown node: NodeIndex(");
    reveal_strlit("DAG contains a cycle through node ");
    reveal_strlit("DAG contains a cycle through node NodeIndex(");
    reveal_strlit("duplicate edge ");
    reveal_strlit("duplicate edge NodeIndex(");
    reveal_strlit(") -> NodeIndex(");
    assert("unknown node: "@ + "NodeIndex("@ =~= "unknown node: NodeIndex("@);
    assert("DAG contains a cycle through node "@ + "NodeIndex("@
        =~= "DAG contains a cycle through node NodeIndex("@);
    assert("duplicate edge "@ + "NodeIndex("@ =~= "duplicate edge NodeIndex("@);
    assert(")"@ + " -> "@ + "NodeIndex("@ =~= ") -> NodeIndex("@);
    match error {
        DagError::UnknownNode(node) => {
            assert(error.text() =~= "unknown node: NodeIndex("@ + decimal(node.0 as nat) + ")"@);
        },
        DagError::Cycle(node) => {
            assert(error.text() =~= "DAG contains a cycle through node NodeIndex("@ + decimal(
                node.0 as nat,
            ) + ")"@);
        },
        DagError::DuplicateEdge { from, to } => {
            assert(error.text() =~= "duplicate edge NodeIndex("@ + decimal(from.0 as nat)
                + ") -> NodeIndex("@ + decimal(to.0 as nat) + ")"@);
        },
    }
}

/// A directed graph whose nodes carry payloads of type `T`.
#[derive(Debug)]
pub struct Dag<T> {
    graph: DiGraph<usize, ()>,
    payloads: Vec<T>,
}

/// What a [`Dag`] holds: the payloads of its nodes and the endpoints of its
/// edges, both in the order in which they were added.
#[verifier::ext_equal]
pub struct DagView<T> {
    pub payloads: Seq<T>,
    pub edges: Seq<(int, int)>,
}

impl<T> DagView<T> {
    /// Edges join nodes of the graph, no two edges join the same nodes in the
    /// same direction, and every node and edge has a handle.
    pub open spec fn wf(self) -> bool {
        &&& edges_in_range(self.payloads.len(), self.edges)
        &&& self.edges.no_duplicates()
        &&& self.payloads.len() <= u32::MAX
        &&& self.edges.len() <= u32::MAX
    }

    /// The graph has the node.
    pub open spec fn has_node(self, node: NodeIndex) -> bool {
        node.position() < self.payloads.len()
    }

    /// Why an edge cannot be added, if it cannot.
    pub open spec fn edge_refusal(self, from: NodeIndex, to: NodeIndex) -> Option<DagError> {
        if !self.has_node(from) {
            Some(DagError::UnknownNode(from))
        } else if !self.has_node(to) {
            Some(DagError::UnknownNode(to))
        } else if self.edges.contains((from.position(), to.position())) {
            Some(DagError::DuplicateEdge { from, to })
        } else {
            None
        }
    }

    /// No task lies on a cycle.
    pub open spec fn acyclic(self) -> bool {
        is_acyclic(self.payloads.len(), self.edges)
    }

    /// Some edge starts or ends at the node.
    pub open spec fn has_edge_at(self, node: int) -> bool {
        exists|k: int|
            0 <= k < self.edges.len() && ((#[trigger] self.edges[k]).0 == node || self.edges[k].1
                == node)
    }
}

impl<T> View for Dag<T> {
    type V = DagView<T>;

    closed spec fn view(&self) -> DagView<T> {
        DagView { payloads: self.payloads@, edges: graph_edges(self.graph) }
    }
}

impl<T> Default for Dag<T> {
    /// An empty DAG.
    fn default() -> (dag: Self)
        ensures
            dag.wf(),
            dag@.payloads == Seq::<T>::empty(),
            dag@.edges == Seq::<(int, int)>::empty(),
    {
        Dag::new()
    }
}

impl<T: Clone> Clone for Dag<T> {
    /// A DAG with the same edges and with a clone of every payload.
    fn clone(&self) -> (copy: Self)
        ensures
            copy@.edges == self@.edges,
            copy@.payloads.len() == self@.payloads.len(),
            forall|k: int|
                0 <= k < self@.payloads.len() ==> cloned::<T>(
                    #[trigger] self@.payloads[k],
                    copy@.payloads[k],
                ),
            self.wf() ==> copy.wf(),
    {
        Dag { graph: digraph::clone_graph(&self.graph), payloads: self.payloads.clone() }
    }
}

/// The flags mark the nodes that have been taken.
spec fn taken_are(flags: Seq<bool>, taken: Seq<int>) -> bool {
    forall|node: int| 0 <= node < flags.len() ==> #[trigger] flags[node] == taken.contains(node)
}

/// Whether the node has not been taken and all its parents have.
fn is_ready_node(
    parents: &Vec<Vec<NodeIndex>>,
    taken: &Vec<bool>,
    node: usize,
    Ghost(edges): Ghost<Seq<(int, int)>>,
    Ghost(done): Ghost<Seq<int>>,
) -> (ready: bool)
    requires
        edges_in_range(parents@.len(), edges),
        taken@.len() == parents@.len(),
        node < parents@.len(),
        positions(parents@[node as int]@) == predecessors(edges, node as int),
        taken_are(taken@, done),
    ensures
        ready == is_ready(edges, done, node as int),
{
    if taken[node] {
        return false;
    }
    let sources = &parents[node];
    let ghost from = predecessors(edges, node as int);
    for k in 0..sources.len()
        invariant
            edges_in_range(parents@.len(), edges),
            taken@.len() == parents@.len(),
            from == predecessors(edges, node as int),
            from == positions(sources@),
            taken_are(taken@, done),
            forall|j: int| 0 <= j < k ==> done.contains(#[trigger] from[j]),
    {
        proof {
            assert(from[k as int] == sources@[k as int].position());
            assert(from.contains(from[k as int]));
            neighbors_follow_edges(edges, from[k as int], node as int);
            let at = edges.index_of((from[k as int], node as int));
            assert(edges[at] == (from[k as int], node as int));
        }
        if !taken[sources[k].0 as usize] {
            assert(!done.contains(from[k as int]));
            return false;
        }
    }
    proof {
        assert forall|source: int| #[trigger]
            edges.contains((source, node as int)) implies done.contains(source) by {
            neighbors_follow_edges(edges, source, node as int);
            assert(from[from.index_of(source)] == source);
        }
    }
    true
}

impl<T> Dag<T> {
    /// The weight of a node is the place of its payload.
    pub closed spec fn payloads_placed(self) -> bool {
        &&& graph_nodes(self.graph).len() == self.payloads@.len()
        &&& forall|k: int|
            0 <= k < self.payloads@.len() ==> #[trigger] graph_nodes(self.graph)[k] == k
    }

    /// What every DAG keeps.
    pub open spec fn wf(self) -> bool {
        self@.wf() && self.payloads_placed()
    }

    /// An empty DAG.
    pub fn new() -> (dag: Self)
        ensures
            dag.wf(),
            dag@.payloads == Seq::<T>::empty(),
            dag@.edges == Seq::<(int, int)>::empty(),
    {
        Dag { graph: digraph::new_graph(), payloads: Vec::new() }
    }

    /// Adds a node that carries `payload` and returns its handle.
    pub fn add_node(&mut self, payload: T) -> (node: NodeIndex)
        requires
            old(self).wf(),
            old(self)@.payloads.len() < u32::MAX,
        ensures
            final(self).wf(),
            final(self)@.payloads == old(self)@.payloads.push(payload),
            final(self)@.edges == old(self)@.edges,
            node.position() == old(self)@.payloads.len(),
    {
        let place: usize = self.payloads.len();
        let node = digraph::add_node(&mut self.graph, place);
        self.payloads.push(payload);
        node
    }

    /// Adds the edge `from -> to`, or says why it cannot be added and leaves the
    /// DAG as it was.
    pub fn add_edge(&mut self, from: NodeIndex, to: NodeIndex) -> (added: Result<(), DagError>)
        requires
            old(self).wf(),
            old(self)@.edge_refusal(from, to) is None ==> old(self)@.edges.len() < u32::MAX,
        ensures
            final(self).wf(),
            added == match old(self)@.edge_refusal(from, to) {
                Some(error) => Err::<(), DagError>(error),
                None => Ok(()),
            },
            added is Ok <==> {
                &&& from.0 < old(self)@.payloads.len()
                &&& to.0 < old(self)@.payloads.len()
                &&& !old(self)@.edges.contains((from.0 as int, to.0 as int))
            },
            added matches Err(error) ==> error == if from.0 >= old(self)@.payloads.len() {
                DagError::UnknownNode(from)
            } else if to.0 >= old(self)@.payloads.len() {
                DagError::UnknownNode(to)
            } else {
                DagError::DuplicateEdge { from, to }
            },
            final(self)@.payloads == old(self)@.payloads,
            final(self)@.edges == match added {
                Ok(()) => old(self)@.edges.push((from.position(), to.position())),
                Err(_) => old(self)@.edges,
            },
    {
        let count: usize = digraph::node_count(&self.graph);
        if from.0 as usize >= count {
            return Err(DagError::UnknownNode(from));
        }
        if to.0 as usize >= count {
            return Err(DagError::UnknownNode(to));
        }
        if digraph::has_edge(&self.graph, from, to) {
            return Err(DagError::DuplicateEdge { from, to });
        }
        digraph::add_edge(&mut self.graph, from, to);
        Ok(())
    }

    /// A topological order of the DAG, or [`DagError::Cycle`] with a node that
    /// lies on a cycle. Of the nodes whose parents have all been taken, the one
    /// that was added first is taken next, so that the order is the same for all
    /// DAGs with the same edges whose nodes were added in the same order.
    pub fn topo_sort(&self) -> (sorted: Result<Vec<NodeIndex>, DagError>)
        requires
            self.wf(),
        ensures
            sorted is Ok <==> self@.acyclic(),
            match sorted {
                Ok(order) => {
                    &&& takes_first_ready(self@.payloads.len(), self@.edges, positions(order@))
                    &&& is_topological_order(
                        self@.payloads.len(),
                        self@.edges,
                        positions(order@),
                    )
                    &&& topo_result(self@.payloads.len(), self@.edges) == Ok::<Seq<int>, int>(
                        positions(order@),
                    )
                    &&& order@.len() == self@.payloads.len()
                    &&& order@.no_duplicates()
                    &&& forall|e: int|
                        0 <= e < self@.edges.len() ==> positions(order@).index_of(
                            (#[trigger] self@.edges[e]).0,
                        ) < positions(order@).index_of(self@.edges[e].1)
                    &&& forall|k: int, node: int|
                        0 <= k < order@.len() && 0 <= node < order@[k].0 ==> (
                        #[trigger] positions(order@).take(k).contains(node)) || exists|from: int|
                            #[trigger] self@.edges.contains((from, node)) && !positions(
                                order@,
                            ).take(k).contains(from)
                },
                Err(DagError::Cycle(node)) => {
                    &&& self@.has_node(node)
                    &&& on_cycle(self@.edges, node.position())
                    &&& topo_result(self@.payloads.len(), self@.edges) == Err::<Seq<int>, int>(
                        node.position(),
                    )
                },
                Err(_) => false,
            },
    {
        match digraph::toposort(&self.graph) {
            Ok(found) => {
                let ghost nodes = self@.payloads.len();
                proof {
                    ordered_graph_is_acyclic(nodes, self@.edges, positions(found@));
                }
                let order = self.first_ready_order();
                proof {
                    insertion_order_is_topological(nodes, self@.edges, positions(order@));
                    insertion_order_is_unique(nodes, self@.edges, positions(order@));
                    self.lemma_order_in_full(order@);
                }
                Ok(order)
            },
            Err(node) => Err(DagError::Cycle(node)),
        }
    }

    proof fn lemma_order_in_full(self, order: Seq<NodeIndex>)
        requires
            self.wf(),
            takes_first_ready(self@.payloads.len(), self@.edges, positions(order)),
            is_topological_order(self@.payloads.len(), self@.edges, positions(order)),
        ensures
            order.no_duplicates(),
            forall|e: int|
                0 <= e < self@.edges.len() ==> positions(order).index_of(
                    (#[trigger] self@.edges[e]).0,
                ) < positions(order).index_of(self@.edges[e].1),
            forall|k: int, node: int|
                0 <= k < order.len() && 0 <= node < order[k].0 ==> (#[trigger] positions(
                    order,
                ).take(k).contains(node)) || exists|from: int|
                    #[trigger] self@.edges.contains((from, node)) && !positions(order).take(
                        k,
                    ).contains(from),
    {
        let places = positions(order);
        let edges = self@.edges;
        assert forall|i: int, j: int|
            0 <= i < order.len() && 0 <= j < order.len() && i != j implies order[i] != order[j] by {
            assert(places[i] == order[i].position() && places[j] == order[j].position());
        }
        assert forall|e: int| 0 <= e < edges.len() implies places.index_of(
            (#[trigger] edges[e]).0,
        ) < places.index_of(edges[e].1) by {
            assert(places.contains(edges[e].0) && places.contains(edges[e].1));
            let i = places.index_of(edges[e].0);
            let j = places.index_of(edges[e].1);
            assert(edges.contains((places[i], places[j])));
        }
        assert forall|k: int, node: int| 0 <= k < order.len() && 0 <= node < order[k].0 implies (
        #[trigger] places.take(k).contains(node)) || exists|from: int|
            #[trigger] edges.contains((from, node)) && !places.take(k).contains(from) by {
            assert(places[k] == order[k].position());
            earliest_ready_node_is_taken(self@.payloads.len(), edges, places, k, node);
        }
    }

    /// The nodes, of those that are ready always the first.
    #[verifier::spinoff_prover]
    fn first_ready_order(&self) -> (order: Vec<NodeIndex>)
        requires
            self.wf(),
            self@.acyclic(),
        ensures
            takes_first_ready(self@.payloads.len(), self@.edges, positions(order@)),
    {
        let count: usize = self.node_count();
        let ghost edges = self@.edges;
        let mut parents: Vec<Vec<NodeIndex>> = Vec::new();
        let mut taken: Vec<bool> = Vec::new();
        for k in 0..count
            invariant
                self.wf(),
                count == self@.payloads.len(),
                edges == self@.edges,
                parents@.len() == k,
                taken@.len() == k,
                forall|j: int|
                    0 <= j < k ==> positions((#[trigger] parents@[j])@) == predecessors(edges, j),
                forall|j: int| 0 <= j < k ==> !#[trigger] taken@[j],
        {
            parents.push(self.parents(NodeIndex(k as u32)));
            taken.push(false);
        }
        let mut order: Vec<NodeIndex> = Vec::new();
        for step in 0..count
            invariant
                edges_in_range(count as nat, edges),
                is_acyclic(count as nat, edges),
                count <= u32::MAX,
                parents@.len() == count,
                taken@.len() == count,
                forall|j: int|
                    0 <= j < count ==> positions((#[trigger] parents@[j])@) == predecessors(
                        edges,
                        j,
                    ),
                taken_are(taken@, positions(order@)),
                order@.len() == step,
                positions(order@).no_duplicates(),
                forall|k: int|
                    0 <= k < order@.len() ==> (#[trigger] positions(order@)[k]) < count
                        && is_first_ready(
                        edges,
                        positions(order@).take(k),
                        positions(order@)[k],
                    ),
        {
            let ghost done = positions(order@);
            let mut node: usize = 0;
            proof {
                assert forall|k: int| 0 <= k < done.len() implies 0 <= #[trigger] done[k]
                    < count by {
                    assert(is_first_ready(edges, done.take(k), done[k]));
                }
                lemma_distinct_numbers(count as nat, done);
            }
            let ghost missing = choose|node: int|
                0 <= node < count && !#[trigger] done.contains(node);
            let ghost ready = lemma_acyclic_has_ready(count as nat, edges, done, missing);
            while !is_ready_node(&parents, &taken, node, Ghost(edges), Ghost(done))
                invariant
                    edges_in_range(count as nat, edges),
                    count <= u32::MAX,
                    parents@.len() == count,
                    taken@.len() == count,
                    forall|j: int|
                        0 <= j < count ==> positions((#[trigger] parents@[j])@) == predecessors(
                            edges,
                            j,
                        ),
                    taken_are(taken@, done),
                    node <= ready < count,
                    is_ready(edges, done, ready),
                    forall|other: int|
                        0 <= other < node ==> !#[trigger] is_ready(edges, done, other),
                decreases count - node,
            {
                node = node + 1;
            }
            order.push(NodeIndex(node as u32));
            taken.set(node, true);
            proof {
                let more = positions(order@);
                assert(more =~= done.push(node as int));
                assert forall|k: int| 0 <= k < more.len() implies (#[trigger] more[k]) < count
                    && is_first_ready(edges, more.take(k), more[k]) by {
                    if k < done.len() {
                        assert(more.take(k) =~= done.take(k));
                        assert(more[k] == done[k]);
                    } else {
                        assert(more.take(k) =~= done);
                    }
                }
                assert forall|j: int| 0 <= j < taken@.len() implies #[trigger] taken@[j]
                    == more.contains(j) by {
                    if done.contains(j) {
                        assert(more[done.index_of(j)] == j);
                    }
                    if j == node {
                        assert(more[done.len() as int] == j);
                    }
                    if more.contains(j) && j != node {
                        let at = more.index_of(j);
                        assert(done[at] == j);
                    }
                }
                assert forall|i: int, j: int|
                    0 <= i < more.len() && 0 <= j < more.len() && i != j implies more[i]
                    != more[j] by {
                    if i == done.len() {
                        assert(done.contains(done[j]));
                    } else if j == done.len() {
                        assert(done.contains(done[i]));
                    }
                }
            }
        }
        order
    }

    /// Says whether the DAG is free of cycles; where it is not, the error is
    /// that of [`Dag::topo_sort`].
    pub fn cycle_check(&self) -> (checked: Result<(), DagError>)
        requires
            self.wf(),
        ensures
            checked is Ok <==> self@.acyclic(),
            match checked {
                Ok(()) => true,
                Err(DagError::Cycle(node)) => {
                    &&& self@.has_node(node)
                    &&& on_cycle(self@.edges, node.position())
                    &&& topo_result(self@.payloads.len(), self@.edges) == Err::<Seq<int>, int>(
                        node.position(),
                    )
                },
                Err(_) => false,
            },
    {
        match digraph::toposort(&self.graph) {
            Ok(found) => {
                proof {
                    ordered_graph_is_acyclic(
                        self@.payloads.len(),
                        self@.edges,
                        positions(found@),
                    );
                }
                Ok(())
            },
            Err(node) => Err(DagError::Cycle(node)),
        }
    }

    /// The same DAG with `payloads`, one for each node in the order of the nodes,
    /// in place of those it has.
    pub fn with_payloads<U>(self, payloads: Vec<U>) -> (dag: Dag<U>)
        requires
            self.wf(),
            payloads@.len() == self@.payloads.len(),
        ensures
            dag.wf(),
            dag@.payloads == payloads@,
            dag@.edges == self@.edges,
    {
        Dag { graph: self.graph, payloads }
    }

    /// The payloads of the nodes in `order`.
    pub fn payloads(&self, order: &[NodeIndex]) -> (found: Vec<&T>)
        requires
            self.wf(),
            forall|k: int| 0 <= k < order@.len() ==> self@.has_node(#[trigger] order@[k]),
        ensures
            found@.len() == order@.len(),
            forall|k: int|
                0 <= k < order@.len() ==> *(#[trigger] found@[k])
                    == self@.payloads[order@[k].position()],
    {
        let mut found: Vec<&T> = Vec::new();
        for k in 0..order.len()
            invariant
                self.wf(),
                forall|k: int| 0 <= k < order@.len() ==> self@.has_node(#[trigger] order@[k]),
                found@.len() == k,
                forall|j: int|
                    0 <= j < k ==> *(#[trigger] found@[j]) == self@.payloads[order@[j].position()],
        {
            assert(self@.has_node(order@[k as int]));
            if let Some(payload) = self.payload(order[k]) {
                found.push(payload);
            }
        }
        found
    }

    /// The payload of a node, if the DAG has the node.
    pub fn payload(&self, node: NodeIndex) -> (found: Option<&T>)
        requires
            self.wf(),
        ensures
            match found {
                Some(payload) => self@.has_node(node) && *payload
                    == self@.payloads[node.position()],
                None => !self@.has_node(node),
            },
            found is Some <==> node.0 < self@.payloads.len(),
            found matches Some(payload) ==> *payload == self@.payloads[node.0 as int],
    {
        match digraph::node_weight(&self.graph, node) {
            Some(place) => {
                assert(graph_nodes(self.graph)[node.position()] == node.position());
                Some(&self.payloads[place])
            },
            None => None,
        }
    }

    /// The number of nodes.
    pub fn node_count(&self) -> (count: usize)
        requires
            self.wf(),
        ensures
            count == self@.payloads.len(),
    {
        digraph::node_count(&self.graph)
    }

    /// The number of edges.
    pub fn edge_count(&self) -> (count: usize)
        requires
            self.wf(),
        ensures
            count == self@.edges.len(),
    {
        digraph::edge_count(&self.graph)
    }

    /// The endpoints of every edge, in the order in which edges were added.
    pub fn edges(&self) -> (found: Vec<(NodeIndex, NodeIndex)>)
        requires
            self.wf(),
        ensures
            found@.len() == self@.edges.len(),
            forall|k: int|
                0 <= k < found@.len() ==> self@.edges[k] == (
                    (#[trigger] found@[k]).0.position(),
                    found@[k].1.position(),
                ),
    {
        let count: usize = digraph::edge_count(&self.graph);
        let mut found: Vec<(NodeIndex, NodeIndex)> = Vec::new();
        for k in 0..count
            invariant
                self.wf(),
                count == self@.edges.len(),
                found@.len() == k,
                forall|j: int|
                    0 <= j < k ==> self@.edges[j] == (
                        (#[trigger] found@[j]).0.position(),
                        found@[j].1.position(),
                    ),
        {
            if let Some(endpoints) = digraph::edge_endpoints(&self.graph, k as u32) {
                found.push(endpoints);
            }
        }
        found
    }

    /// The nodes with an edge into `node`, those of later edges first; none for
    /// a node that is not in the DAG.
    pub fn parents(&self, node: NodeIndex) -> (found: Vec<NodeIndex>)
        requires
            self.wf(),
        ensures
            positions(found@) == predecessors(self@.edges, node.position()),
            forall|from: int| #[trigger]
                positions(found@).contains(from) <==> self@.edges.contains((from, node.0 as int)),
    {
        proof {
            assert forall|from: int| #[trigger]
                predecessors(self@.edges, node.position()).contains(from)
                    <==> self@.edges.contains((from, node.0 as int)) by {
                neighbors_follow_edges(self@.edges, from, node.position());
            }
        }
        digraph::incoming_neighbors(&self.graph, node)
    }

    /// The nodes with an edge from `node`, those of later edges first; none for
    /// a node that is not in the DAG.
    pub fn children(&self, node: NodeIndex) -> (found: Vec<NodeIndex>)
        requires
            self.wf(),
        ensures
            positions(found@) == successors(self@.edges, node.position()),
            forall|to: int| #[trigger]
                positions(found@).contains(to) <==> self@.edges.contains((node.0 as int, to)),
    {
        proof {
            assert forall|to: int| #[trigger]
                successors(self@.edges, node.position()).contains(to) <==> self@.edges.contains(
                    (node.0 as int, to),
                ) by {
                neighbors_follow_edges(self@.edges, node.position(), to);
            }
        }
        digraph::outgoing_neighbors(&self.graph, node)
    }

    /// Whether every node has an edge, into it or from it; a DAG of one node or
    /// none passes.
    pub fn every_task_reachable(&self) -> (reachable: bool)
        requires
            self.wf(),
        ensures
            reachable == (self@.payloads.len() <= 1 || forall|node: int|
                0 <= node < self@.payloads.len() ==> #[trigger] self@.has_edge_at(node)),
            reachable <==> self@.payloads.len() <= 1 || forall|node: int|
                0 <= node < self@.payloads.len() ==> #[trigger] self@.has_edge_at(node) && {
                    ||| exists|to: int| #[trigger] self@.edges.contains((node, to))
                    ||| exists|from: int| #[trigger] self@.edges.contains((from, node))
                },
    {
        let count: usize = digraph::node_count(&self.graph);
        if count <= 1 {
            return true;
        }
        for k in 0..count
            invariant
                self.wf(),
                1 < count == self@.payloads.len(),
                forall|node: int| 0 <= node < k ==> #[trigger] self@.has_edge_at(node),
        {
            let node = NodeIndex(k as u32);
            let parents = self.parents(node);
            let children = self.children(node);
            proof {
                lemma_neighbors_show_edges(self@, k as int);
            }
            if parents.len() == 0 && children.len() == 0 {
                proof {
                    assert(!self@.has_edge_at(k as int));
                    edges_at_a_node(self@, k as int);
                }
                return false;
            }
        }
        proof {
            assert forall|node: int|
                0 <= node < self@.payloads.len() implies #[trigger] self@.has_edge_at(node) && {
                ||| exists|to: int| #[trigger] self@.edges.contains((node, to))
                ||| exists|from: int| #[trigger] self@.edges.contains((from, node))
            } by {
                assert(self@.has_edge_at(node));
                edges_at_a_node(self@, node);
            }
        }
        true
    }
}

/// A filtered sequence holds just the elements that pass.
proof fn lemma_filter_holds<A>(s: Seq<A>, pred: spec_fn(A) -> bool, x: A)
    ensures
        s.filter(pred).contains(x) <==> s.contains(x) && pred(x),
    decreases s.len(),
{
    reveal(Seq::filter);
    if s.len() > 0 {
        let front = s.drop_last();
        lemma_filter_holds(front, pred, x);
        if s.filter(pred).contains(x) {
            let k = s.filter(pred).index_of(x);
            if pred(s.last()) && k == front.filter(pred).len() {
                assert(s[s.len() - 1] == x);
            } else {
                assert(front.filter(pred)[k] == x);
                let j = front.index_of(x);
                assert(s[j] == x);
            }
        }
        if s.contains(x) && pred(x) {
            let j = s.index_of(x);
            if j < front.len() {
                assert(front[j] == x);
                let k = front.filter(pred).index_of(x);
                assert(s.filter(pred)[k] == x);
            } else {
                assert(s.filter(pred)[front.filter(pred).len() as int] == x);
            }
        }
    }
}

/// The parents of a node are the sources of the edges into it, and its children
/// the targets of the edges from it.
pub proof fn neighbors_follow_edges(edges: Seq<(int, int)>, from: int, to: int)
    ensures
        predecessors(edges, to).contains(from) <==> edges.contains((from, to)),
        successors(edges, from).contains(to) <==> edges.contains((from, to)),
{
    let back = edges.reverse();
    let into = ends_at(to);
    let out = starts_at(from);
    lemma_filter_holds(back, into, (from, to));
    lemma_filter_holds(back, out, (from, to));
    if edges.contains((from, to)) {
        let k = edges.index_of((from, to));
        assert(back[edges.len() - 1 - k] == (from, to));
        let i = back.filter(into).index_of((from, to));
        assert(predecessors(edges, to)[i] == from);
        let j = back.filter(out).index_of((from, to));
        assert(successors(edges, from)[j] == to);
    }
    if predecessors(edges, to).contains(from) {
        let i = predecessors(edges, to).index_of(from);
        let edge = back.filter(into)[i];
        lemma_filter_holds(back, into, edge);
        assert(back.filter(into).contains(edge));
        let k = back.index_of(edge);
        assert(edges[edges.len() - 1 - k] == (from, to));
    }
    if successors(edges, from).contains(to) {
        let i = successors(edges, from).index_of(to);
        let edge = back.filter(out)[i];
        lemma_filter_holds(back, out, edge);
        assert(back.filter(out).contains(edge));
        let k = back.index_of(edge);
        assert(edges[edges.len() - 1 - k] == (from, to));
    }
}

/// A node has an edge where one leads from it or into it.
pub proof fn edges_at_a_node<T>(dag: DagView<T>, node: int)
    ensures
        dag.has_edge_at(node) <==> {
            ||| exists|to: int| #[trigger] dag.edges.contains((node, to))
            ||| exists|from: int| #[trigger] dag.edges.contains((from, node))
        },
{
    let edges = dag.edges;
    if dag.has_edge_at(node) {
        let k = choose|k: int|
            0 <= k < edges.len() && ((#[trigger] edges[k]).0 == node || edges[k].1 == node);
        assert(edges.contains(edges[k]));
        assert(edges.contains((node, edges[k].1)) || edges.contains((edges[k].0, node)));
    }
    if exists|to: int| #[trigger] edges.contains((node, to)) {
        let to = choose|to: int| #[trigger] edges.contains((node, to));
        assert(edges[edges.index_of((node, to))].0 == node);
    }
    if exists|from: int| #[trigger] edges.contains((from, node)) {
        let from = choose|from: int| #[trigger] edges.contains((from, node));
        assert(edges[edges.index_of((from, node))].1 == node);
    }
}

/// A node without parents and children has no edge.
proof fn lemma_neighbors_show_edges<T>(dag: DagView<T>, node: int)
    ensures
        predecessors(dag.edges, node).len() > 0 || successors(dag.edges, node).len() > 0
            <==> dag.has_edge_at(node),
{
    if predecessors(dag.edges, node).len() > 0 {
        let from = predecessors(dag.edges, node)[0];
        assert(predecessors(dag.edges, node).contains(from));
        neighbors_follow_edges(dag.edges, from, node);
    }
    if successors(dag.edges, node).len() > 0 {
        let to = successors(dag.edges, node)[0];
        assert(successors(dag.edges, node).contains(to));
        neighbors_follow_edges(dag.edges, node, to);
    }
    if dag.has_edge_at(node) {
        let k = choose|k: int|
            0 <= k < dag.edges.len() && ((#[trigger] dag.edges[k]).0 == node || dag.edges[k].1
                == node);
        assert(dag.edges.contains(dag.edges[k]));
        neighbors_follow_edges(dag.edges, dag.edges[k].0, dag.edges[k].1);
    }
}

} // verus!
