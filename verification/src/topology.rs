//! What it means for a directed graph to be acyclic, and for a list of nodes
//! to be a topological order of it.
//!
//! A graph is a number of nodes, which are the integers from zero up to that
//! number, and the sequence of its edges in the order in which they were added.
use vstd::prelude::*;
use vstd::set_lib::{lemma_int_range, lemma_len_subset, lemma_subset_equality, set_int_range};

verus! {

/// Every edge joins two nodes of the graph.
pub open spec fn edges_in_range(nodes: nat, edges: Seq<(int, int)>) -> bool {
    forall|k: int|
        0 <= k < edges.len() ==> {
            &&& 0 <= (#[trigger] edges[k]).0 < nodes
            &&& 0 <= edges[k].1 < nodes
        }
}

/// `walk` follows edges from each of its nodes to the next, over one edge at
/// least.
pub open spec fn is_walk(edges: Seq<(int, int)>, walk: Seq<int>) -> bool {
    &&& walk.len() >= 2
    &&& forall|k: int|
        0 <= k < walk.len() - 1 ==> edges.contains((#[trigger] walk[k], walk[k + 1]))
}

/// Some walk leads from `from` to `to`.
pub open spec fn reaches(edges: Seq<(int, int)>, from: int, to: int) -> bool {
    exists|walk: Seq<int>|
        #[trigger] is_walk(edges, walk) && walk.first() == from && walk.last() == to
}

/// A walk leads from `node` back to itself.
pub open spec fn on_cycle(edges: Seq<(int, int)>, node: int) -> bool {
    reaches(edges, node, node)
}

/// No node of the graph lies on a cycle.
pub open spec fn is_acyclic(nodes: nat, edges: Seq<(int, int)>) -> bool {
    forall|node: int| 0 <= node < nodes ==> !#[trigger] on_cycle(edges, node)
}

/// `order` lists every node of the graph once, each before its successors.
pub open spec fn is_topological_order(
    nodes: nat,
    edges: Seq<(int, int)>,
    order: Seq<int>,
) -> bool {
    &&& order.len() == nodes
    &&& order.no_duplicates()
    &&& forall|k: int| 0 <= k < order.len() ==> 0 <= #[trigger] order[k] < nodes
    &&& forall|node: int| 0 <= node < nodes ==> #[trigger] order.contains(node)
    &&& forall|i: int, j: int|
        0 <= i < order.len() && 0 <= j < order.len() && #[trigger] edges.contains(
            (order[i], order[j]),
        ) ==> i < j
}

/// Along a walk the places in a topological order increase.
proof fn lemma_walk_goes_forward(
    nodes: nat,
    edges: Seq<(int, int)>,
    order: Seq<int>,
    walk: Seq<int>,
)
    requires
        edges_in_range(nodes, edges),
        is_topological_order(nodes, edges, order),
        is_walk(edges, walk),
    ensures
        order.contains(walk.first()),
        order.contains(walk.last()),
        order.index_of(walk.first()) < order.index_of(walk.last()),
    decreases walk.len(),
{
    let n = walk.len() as int;
    assert(edges.contains((walk[0], walk[0int + 1])));
    let first = edges.index_of((walk[0], walk[1]));
    assert(edges[first] == (walk[0], walk[1]));
    assert(order.contains(walk[0]) && order.contains(walk[1]));
    let i = order.index_of(walk[0]);
    let j = order.index_of(walk[1]);
    assert(edges.contains((order[i], order[j])));
    if n > 2 {
        let rest = walk.skip(1);
        assert forall|k: int| 0 <= k < rest.len() - 1 implies edges.contains(
            (#[trigger] rest[k], rest[k + 1]),
        ) by {
            assert(edges.contains((walk[k + 1], walk[k + 1 + 1])));
        }
        lemma_walk_goes_forward(nodes, edges, order, rest);
        assert(rest.first() == walk[1]);
        assert(rest.last() == walk.last());
    } else {
        assert(walk.last() == walk[1]);
    }
}

/// Whatever a node reaches comes after it in every topological order.
pub proof fn reachable_nodes_come_later(
    nodes: nat,
    edges: Seq<(int, int)>,
    order: Seq<int>,
    i: int,
    j: int,
)
    requires
        edges_in_range(nodes, edges),
        is_topological_order(nodes, edges, order),
        0 <= i < nodes,
        0 <= j < nodes,
        reaches(edges, order[i], order[j]),
    ensures
        i < j,
{
    let walk = choose|walk: Seq<int>|
        #[trigger] is_walk(edges, walk) && walk.first() == order[i] && walk.last() == order[j];
    lemma_walk_goes_forward(nodes, edges, order, walk);
    assert(order.index_of(order[i]) == i);
    assert(order.index_of(order[j]) == j);
}

/// A graph that has a topological order has no cycle.
pub proof fn ordered_graph_is_acyclic(nodes: nat, edges: Seq<(int, int)>, order: Seq<int>)
    requires
        edges_in_range(nodes, edges),
        is_topological_order(nodes, edges, order),
    ensures
        is_acyclic(nodes, edges),
{
    assert forall|node: int| 0 <= node < nodes implies !#[trigger] on_cycle(edges, node) by {
        if on_cycle(edges, node) {
            let i = order.index_of(node);
            assert(order.contains(node));
            reachable_nodes_come_later(nodes, edges, order, i, i);
        }
    }
}

/// `chain` goes through all nodes of the graph, each joined to the next by an
/// edge.
pub open spec fn is_chain(nodes: nat, edges: Seq<(int, int)>, chain: Seq<int>) -> bool {
    &&& chain.len() == nodes
    &&& forall|k: int| 0 <= k < chain.len() ==> 0 <= #[trigger] chain[k] < nodes
    &&& forall|k: int|
        0 <= k < chain.len() - 1 ==> edges.contains((#[trigger] chain[k], chain[k + 1]))
}

/// The place in `order` of each node of a chain lies before that of the next.
proof fn lemma_chain_places_increase(
    nodes: nat,
    edges: Seq<(int, int)>,
    chain: Seq<int>,
    order: Seq<int>,
    k: int,
)
    requires
        edges_in_range(nodes, edges),
        is_chain(nodes, edges, chain),
        is_topological_order(nodes, edges, order),
        0 <= k < nodes - 1,
    ensures
        order.index_of(chain[k]) < order.index_of(chain[k + 1]),
{
    assert(order.contains(chain[k]) && order.contains(chain[k + 1]));
    let i = order.index_of(chain[k]);
    let j = order.index_of(chain[k + 1]);
    assert(edges.contains((order[i], order[j])));
}

/// At least `k` places lie before that of the `k`th node of a chain.
proof fn lemma_chain_place_at_least(
    nodes: nat,
    edges: Seq<(int, int)>,
    chain: Seq<int>,
    order: Seq<int>,
    k: int,
)
    requires
        edges_in_range(nodes, edges),
        is_chain(nodes, edges, chain),
        is_topological_order(nodes, edges, order),
        0 <= k < nodes,
    ensures
        order.index_of(chain[k]) >= k,
    decreases k,
{
    assert(order.contains(chain[k]));
    if k > 0 {
        lemma_chain_place_at_least(nodes, edges, chain, order, k - 1);
        lemma_chain_places_increase(nodes, edges, chain, order, k - 1);
    }
}

/// At most `k` places lie before that of the `k`th node of a chain.
proof fn lemma_chain_place_at_most(
    nodes: nat,
    edges: Seq<(int, int)>,
    chain: Seq<int>,
    order: Seq<int>,
    k: int,
)
    requires
        edges_in_range(nodes, edges),
        is_chain(nodes, edges, chain),
        is_topological_order(nodes, edges, order),
        0 <= k < nodes,
    ensures
        order.index_of(chain[k]) <= k,
    decreases nodes - k,
{
    assert(order.contains(chain[k]));
    if k < nodes - 1 {
        lemma_chain_place_at_most(nodes, edges, chain, order, k + 1);
        lemma_chain_places_increase(nodes, edges, chain, order, k);
    }
}

/// A chain of tasks has one topological order: the chain itself.
pub proof fn chain_has_one_order(
    nodes: nat,
    edges: Seq<(int, int)>,
    chain: Seq<int>,
    order: Seq<int>,
)
    requires
        edges_in_range(nodes, edges),
        is_chain(nodes, edges, chain),
        is_topological_order(nodes, edges, order),
    ensures
        order == chain,
{
    assert forall|k: int| 0 <= k < nodes implies order[k] == chain[k] by {
        lemma_chain_place_at_least(nodes, edges, chain, order, k);
        lemma_chain_place_at_most(nodes, edges, chain, order, k);
        assert(order.contains(chain[k]));
    }
    assert(order =~= chain);
}

/// `node` has not been taken, and all nodes with an edge into it have.
pub open spec fn is_ready(edges: Seq<(int, int)>, taken: Seq<int>, node: int) -> bool {
    &&& !taken.contains(node)
    &&& forall|from: int| #[trigger] edges.contains((from, node)) ==> taken.contains(from)
}

/// `node` is the first that is ready once `taken` have been taken.
pub open spec fn is_first_ready(edges: Seq<(int, int)>, taken: Seq<int>, node: int) -> bool {
    &&& 0 <= node
    &&& is_ready(edges, taken, node)
    &&& forall|other: int| 0 <= other < node ==> !#[trigger] is_ready(edges, taken, other)
}

/// `order` takes as many nodes as the graph has, and at each step the first that
/// is ready.
pub open spec fn takes_first_ready(nodes: nat, edges: Seq<(int, int)>, order: Seq<int>) -> bool {
    &&& order.len() == nodes
    &&& forall|k: int|
        0 <= k < order.len() ==> (#[trigger] order[k]) < nodes && is_first_ready(
            edges,
            order.take(k),
            order[k],
        )
}

/// The order in which the nodes of a graph are taken: of the nodes whose
/// predecessors have all been taken, the one that was added first.
pub open spec fn insertion_order(nodes: nat, edges: Seq<(int, int)>) -> Seq<int> {
    choose|order: Seq<int>| takes_first_ready(nodes, edges, order)
}

proof fn lemma_first_ready_prefix_is_unique(
    nodes: nat,
    edges: Seq<(int, int)>,
    a: Seq<int>,
    b: Seq<int>,
    count: int,
)
    requires
        takes_first_ready(nodes, edges, a),
        takes_first_ready(nodes, edges, b),
        0 <= count <= nodes,
    ensures
        a.take(count) == b.take(count),
    decreases count,
{
    if count > 0 {
        let k = count - 1;
        lemma_first_ready_prefix_is_unique(nodes, edges, a, b, k);
        assert(is_first_ready(edges, a.take(k), a[k]));
        assert(is_first_ready(edges, b.take(k), b[k]));
        if a[k] < b[k] {
            assert(!is_ready(edges, b.take(k), a[k]));
        } else if b[k] < a[k] {
            assert(!is_ready(edges, a.take(k), b[k]));
        }
        assert(a.take(count) =~= a.take(k).push(a[k]));
        assert(b.take(count) =~= b.take(k).push(b[k]));
    } else {
        assert(a.take(0) =~= b.take(0));
    }
}

/// There is only one order that takes the first ready node at each step.
pub proof fn insertion_order_is_unique(nodes: nat, edges: Seq<(int, int)>, order: Seq<int>)
    requires
        takes_first_ready(nodes, edges, order),
    ensures
        insertion_order(nodes, edges) == order,
{
    let other = insertion_order(nodes, edges);
    lemma_first_ready_prefix_is_unique(nodes, edges, order, other, nodes as int);
    assert(order.take(nodes as int) =~= order);
    assert(other.take(nodes as int) =~= other);
}

/// Where a node is taken, each node that was added before it has been taken or
/// waits for one that has not, and the node itself waits for none.
pub proof fn earliest_ready_node_is_taken(
    nodes: nat,
    edges: Seq<(int, int)>,
    order: Seq<int>,
    k: int,
    node: int,
)
    requires
        takes_first_ready(nodes, edges, order),
        0 <= k < nodes,
        0 <= node <= order[k],
    ensures
        node < order[k] ==> order.take(k).contains(node) || exists|from: int|
            #[trigger] edges.contains((from, node)) && !order.take(k).contains(from),
        node == order[k] ==> !order.take(k).contains(node) && forall|from: int|
            #[trigger] edges.contains((from, node)) ==> order.take(k).contains(from),
{
    assert(is_first_ready(edges, order.take(k), order[k]));
    if node < order[k] {
        assert(!is_ready(edges, order.take(k), node));
    }
}

/// The order hangs on which edges there are, not on when they were added.
pub proof fn insertion_order_ignores_edge_order(
    nodes: nat,
    edges: Seq<(int, int)>,
    others: Seq<(int, int)>,
)
    requires
        edges_in_range(nodes, edges),
        is_acyclic(nodes, edges),
        forall|edge: (int, int)| #[trigger] edges.contains(edge) <==> others.contains(edge),
    ensures
        insertion_order(nodes, edges) == insertion_order(nodes, others),
{
    let order = insertion_order(nodes, edges);
    acyclic_graph_has_insertion_order(nodes, edges);
    assert forall|taken: Seq<int>, node: int| #[trigger]
        is_ready(edges, taken, node) == is_ready(others, taken, node) by {
        if is_ready(edges, taken, node) {
            assert forall|from: int| #[trigger] others.contains((from, node)) implies taken.contains(
                from,
            ) by {
                assert(edges.contains((from, node)));
            }
        }
        if is_ready(others, taken, node) {
            assert forall|from: int| #[trigger] edges.contains((from, node)) implies taken.contains(
                from,
            ) by {
                assert(others.contains((from, node)));
            }
        }
    }
    assert forall|k: int| 0 <= k < order.len() implies (#[trigger] order[k]) < nodes
        && is_first_ready(others, order.take(k), order[k]) by {
        let taken = order.take(k);
        assert(is_first_ready(edges, taken, order[k]));
        assert(is_ready(edges, taken, order[k]));
        assert forall|other: int| 0 <= other < order[k] implies !#[trigger] is_ready(
            others,
            taken,
            other,
        ) by {
            assert(!is_ready(edges, taken, other));
        }
    }
    insertion_order_is_unique(nodes, others, order);
}

/// Different numbers below `nodes` are at most `nodes`, and all of them where
/// they are as many.
pub(crate) proof fn lemma_distinct_numbers(nodes: nat, taken: Seq<int>)
    requires
        taken.no_duplicates(),
        forall|k: int| 0 <= k < taken.len() ==> 0 <= #[trigger] taken[k] < nodes,
    ensures
        taken.len() <= nodes,
        taken.len() == nodes ==> forall|node: int|
            0 <= node < nodes ==> #[trigger] taken.contains(node),
        taken.len() < nodes ==> exists|node: int|
            0 <= node < nodes && !#[trigger] taken.contains(node),
{
    let range = set_int_range(0, nodes as int);
    let found = taken.to_set();
    lemma_int_range(0, nodes as int);
    taken.unique_seq_to_set();
    assert forall|node: int| found.contains(node) implies range.contains(node) by {
        let k = taken.index_of(node);
        assert(taken[k] == node);
    }
    lemma_len_subset(found, range);
    if taken.len() == nodes {
        lemma_subset_equality(found, range);
        assert forall|node: int| 0 <= node < nodes implies #[trigger] taken.contains(node) by {
            assert(range.contains(node));
            assert(found.contains(node));
        }
    } else {
        if forall|node: int| 0 <= node < nodes ==> #[trigger] taken.contains(node) {
            assert forall|node: int| range.contains(node) implies found.contains(node) by {
                assert(taken.contains(node));
            }
            lemma_len_subset(range, found);
        }
    }
}

/// The order that takes the first ready node at each step is a topological
/// order.
pub proof fn insertion_order_is_topological(nodes: nat, edges: Seq<(int, int)>, order: Seq<int>)
    requires
        takes_first_ready(nodes, edges, order),
    ensures
        is_topological_order(nodes, edges, order),
{
    assert forall|k: int| 0 <= k < order.len() implies 0 <= #[trigger] order[k] < nodes by {
        assert(is_first_ready(edges, order.take(k), order[k]));
    }
    assert forall|i: int, j: int|
        0 <= i < order.len() && 0 <= j < order.len() && i != j implies order[i] != order[j] by {
        if i < j {
            assert(is_first_ready(edges, order.take(j), order[j]));
            assert(order.take(j)[i] == order[i]);
        } else {
            assert(is_first_ready(edges, order.take(i), order[i]));
            assert(order.take(i)[j] == order[j]);
        }
    }
    lemma_distinct_numbers(nodes, order);
    assert forall|i: int, j: int|
        0 <= i < order.len() && 0 <= j < order.len() && #[trigger] edges.contains(
            (order[i], order[j]),
        ) implies i < j by {
        let taken = order.take(j);
        assert(is_first_ready(edges, taken, order[j]));
        let at = taken.index_of(order[i]);
        assert(taken.contains(order[i]));
        assert(order[at] == order[i]);
    }
}

/// Going back from node to node along the edges into them, `count` times.
proof fn lemma_walk_back(
    nodes: nat,
    edges: Seq<(int, int)>,
    taken: Seq<int>,
    start: int,
    count: nat,
) -> (walk: Seq<int>)
    requires
        edges_in_range(nodes, edges),
        0 <= start < nodes,
        !taken.contains(start),
        forall|node: int| 0 <= node < nodes ==> !#[trigger] is_ready(edges, taken, node),
    ensures
        walk.len() == count + 1,
        forall|k: int|
            0 <= k < walk.len() ==> 0 <= (#[trigger] walk[k]) < nodes && !taken.contains(walk[k]),
        count > 0 ==> is_walk(edges, walk),
    decreases count,
{
    if count == 0 {
        seq![start]
    } else {
        let rest = lemma_walk_back(nodes, edges, taken, start, (count - 1) as nat);
        let node = rest[0];
        assert(!is_ready(edges, taken, node));
        let from = choose|from: int| #[trigger]
            edges.contains((from, node)) && !taken.contains(from);
        assert(edges.contains((from, node)));
        let at = edges.index_of((from, node));
        assert(edges[at] == (from, node));
        let walk = seq![from] + rest;
        assert forall|k: int| 0 <= k < walk.len() implies 0 <= (#[trigger] walk[k]) < nodes
            && !taken.contains(walk[k]) by {
            if k > 0 {
                assert(walk[k] == rest[k - 1]);
            }
        }
        assert forall|k: int| 0 <= k < walk.len() - 1 implies edges.contains(
            (#[trigger] walk[k], walk[k + 1]),
        ) by {
            if k > 0 {
                assert(walk[k] == rest[k - 1] && walk[k + 1] == rest[k - 1 + 1]);
                assert(edges.contains((rest[k - 1], rest[k - 1 + 1])));
            } else {
                assert(walk[1] == rest[0]);
            }
        }
        walk
    }
}

/// Of more numbers below `nodes` than there are, two are the same.
proof fn lemma_numbers_repeat(nodes: nat, numbers: Seq<int>) -> (places: (int, int))
    requires
        numbers.len() > nodes,
        forall|k: int| 0 <= k < numbers.len() ==> 0 <= #[trigger] numbers[k] < nodes,
    ensures
        0 <= places.0 < places.1 < numbers.len(),
        numbers[places.0] == numbers[places.1],
{
    if numbers.no_duplicates() {
        lemma_distinct_numbers(nodes, numbers);
    }
    let (i, j) = choose|i: int, j: int|
        0 <= i < numbers.len() && 0 <= j < numbers.len() && i != j && #[trigger] numbers[i]
            == #[trigger] numbers[j];
    if i < j {
        (i, j)
    } else {
        (j, i)
    }
}

/// A node that a walk comes to twice lies on a cycle.
proof fn lemma_repeated_node_is_on_cycle(edges: Seq<(int, int)>, walk: Seq<int>, i: int, j: int)
    requires
        is_walk(edges, walk),
        0 <= i < j < walk.len(),
        walk[i] == walk[j],
    ensures
        on_cycle(edges, walk[i]),
{
    let round = walk.subrange(i, j + 1);
    assert forall|k: int| 0 <= k < round.len() - 1 implies edges.contains(
        (#[trigger] round[k], round[k + 1]),
    ) by {
        let at = i + k;
        assert(edges.contains((walk[at], walk[at + 1])));
    }
    assert(is_walk(edges, round));
    assert(round.first() == walk[i] && round.last() == walk[j]);
}

/// As long as not all nodes of a graph without cycles have been taken, one is
/// ready.
pub(crate) proof fn lemma_acyclic_has_ready(
    nodes: nat,
    edges: Seq<(int, int)>,
    taken: Seq<int>,
    start: int,
) -> (ready: int)
    requires
        edges_in_range(nodes, edges),
        is_acyclic(nodes, edges),
        0 <= start < nodes,
        !taken.contains(start),
    ensures
        0 <= ready < nodes,
        is_ready(edges, taken, ready),
{
    if forall|node: int| 0 <= node < nodes ==> !#[trigger] is_ready(edges, taken, node) {
        let walk = lemma_walk_back(nodes, edges, taken, start, nodes);
        let (i, j) = lemma_numbers_repeat(nodes, walk);
        lemma_repeated_node_is_on_cycle(edges, walk, i, j);
        assert(!on_cycle(edges, walk[i]));
        0
    } else {
        choose|node: int| 0 <= node < nodes && #[trigger] is_ready(edges, taken, node)
    }
}

/// Of the ready nodes up to `ready` one is the first.
proof fn lemma_has_first_ready(edges: Seq<(int, int)>, taken: Seq<int>, ready: int) -> (first: int)
    requires
        0 <= ready,
        is_ready(edges, taken, ready),
    ensures
        first <= ready,
        is_first_ready(edges, taken, first),
    decreases ready,
{
    if exists|other: int| 0 <= other < ready && #[trigger] is_ready(edges, taken, other) {
        let other = choose|other: int| 0 <= other < ready && #[trigger] is_ready(
            edges,
            taken,
            other,
        );
        lemma_has_first_ready(edges, taken, other)
    } else {
        ready
    }
}

/// The first `count` nodes of the insertion order of a graph without cycles.
proof fn lemma_first_ready_nodes(nodes: nat, edges: Seq<(int, int)>, count: nat) -> (order: Seq<int>)
    requires
        edges_in_range(nodes, edges),
        is_acyclic(nodes, edges),
        count <= nodes,
    ensures
        order.len() == count,
        order.no_duplicates(),
        forall|k: int|
            0 <= k < order.len() ==> (#[trigger] order[k]) < nodes && is_first_ready(
                edges,
                order.take(k),
                order[k],
            ),
    decreases count,
{
    if count == 0 {
        Seq::empty()
    } else {
        let done = lemma_first_ready_nodes(nodes, edges, (count - 1) as nat);
        assert forall|k: int| 0 <= k < done.len() implies 0 <= #[trigger] done[k] < nodes by {
            assert(is_first_ready(edges, done.take(k), done[k]));
        }
        lemma_distinct_numbers(nodes, done);
        let missing = choose|node: int| 0 <= node < nodes && !#[trigger] done.contains(node);
        let ready = lemma_acyclic_has_ready(nodes, edges, done, missing);
        let first = lemma_has_first_ready(edges, done, ready);
        let order = done.push(first);
        assert forall|k: int| 0 <= k < order.len() implies (#[trigger] order[k]) < nodes
            && is_first_ready(edges, order.take(k), order[k]) by {
            if k < done.len() {
                assert(order[k] == done[k]);
                assert(order.take(k) =~= done.take(k));
            } else {
                assert(order.take(k) =~= done);
            }
        }
        assert forall|i: int, j: int|
            0 <= i < order.len() && 0 <= j < order.len() && i != j implies order[i]
            != order[j] by {
            if i == done.len() {
                assert(done.contains(done[j]));
            } else if j == done.len() {
                assert(done.contains(done[i]));
            }
        }
        order
    }
}

/// The insertion order of a graph without cycles takes the first ready node at
/// each step, and is a topological order.
pub proof fn acyclic_graph_has_insertion_order(nodes: nat, edges: Seq<(int, int)>)
    requires
        edges_in_range(nodes, edges),
        is_acyclic(nodes, edges),
    ensures
        takes_first_ready(nodes, edges, insertion_order(nodes, edges)),
        is_topological_order(nodes, edges, insertion_order(nodes, edges)),
{
    let order = lemma_first_ready_nodes(nodes, edges, nodes);
    assert(takes_first_ready(nodes, edges, order));
    insertion_order_is_unique(nodes, edges, order);
    insertion_order_is_topological(nodes, edges, order);
}

/// Nodes that are added after all that have an edge into them are taken in the
/// order in which they were added.
pub proof fn dependency_order_is_kept(nodes: nat, edges: Seq<(int, int)>)
    requires
        edges_in_range(nodes, edges),
        forall|k: int| 0 <= k < edges.len() ==> (#[trigger] edges[k]).0 < edges[k].1,
    ensures
        insertion_order(nodes, edges) == Seq::new(nodes, |k: int| k),
{
    let order = Seq::new(nodes, |k: int| k);
    assert forall|k: int| 0 <= k < order.len() implies (#[trigger] order[k]) < nodes
        && is_first_ready(edges, order.take(k), order[k]) by {
        let taken = order.take(k);
        assert forall|from: int| #[trigger] edges.contains((from, k)) implies taken.contains(
            from,
        ) by {
            let at = edges.index_of((from, k));
            assert(edges[at] == (from, k));
            assert(taken[from] == from);
        }
        if taken.contains(k) {
            let at = taken.index_of(k);
            assert(taken[at] == at);
        }
        assert forall|other: int| 0 <= other < k implies !#[trigger] is_ready(
            edges,
            taken,
            other,
        ) by {
            assert(taken[other] == other);
        }
    }
    insertion_order_is_unique(nodes, edges, order);
}

} // verus!
