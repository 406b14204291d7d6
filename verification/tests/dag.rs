use dagflow::dag::{Dag, DagError};
use dagflow::digraph::NodeIndex;

fn linear_chain() -> Dag<&'static str> {
    let mut dag = Dag::new();
    let a = dag.add_node("extract");
    let b = dag.add_node("transform");
    let c = dag.add_node("load");
    dag.add_edge(a, b).unwrap();
    dag.add_edge(b, c).unwrap();
    dag
}

#[test]
fn topo_sort_linear() {
    let dag = linear_chain();
    let order = dag.topo_sort().unwrap();
    let names: Vec<&&str> = dag.payloads(&order);
    assert_eq!(names, vec![&"extract", &"transform", &"load"]);
}

#[test]
fn topo_sort_branch_then_join() {
    let mut dag = Dag::<&str>::new();
    let root = dag.add_node("root");
    let a = dag.add_node("a");
    let b = dag.add_node("b");
    let join = dag.add_node("join");
    dag.add_edge(root, a).unwrap();
    dag.add_edge(root, b).unwrap();
    dag.add_edge(a, join).unwrap();
    dag.add_edge(b, join).unwrap();

    let order = dag.topo_sort().unwrap();
    let names: Vec<&&str> = dag.payloads(&order);
    let pos = |n: &str| names.iter().position(|s| **s == n).unwrap();
    assert!(pos("root") < pos("a"));
    assert!(pos("root") < pos("b"));
    assert!(pos("a") < pos("join"));
    assert!(pos("b") < pos("join"));
}

#[test]
fn cycle_detection() {
    let mut dag = Dag::<&str>::new();
    let a = dag.add_node("a");
    let b = dag.add_node("b");
    dag.add_edge(a, b).unwrap();
    dag.add_edge(b, a).unwrap();

    assert!(matches!(dag.cycle_check(), Err(DagError::Cycle(_))));
    assert!(matches!(dag.topo_sort(), Err(DagError::Cycle(_))));
}

#[test]
fn duplicate_edge_rejected() {
    let mut dag = Dag::<&str>::new();
    let a = dag.add_node("a");
    let b = dag.add_node("b");
    dag.add_edge(a, b).unwrap();
    let err = dag.add_edge(a, b).unwrap_err();
    assert!(matches!(err, DagError::DuplicateEdge { .. }));
}

#[test]
fn topo_sort_is_deterministic() {
    let first = linear_chain().topo_sort().unwrap();
    for _ in 0..10 {
        let next = linear_chain().topo_sort().unwrap();
        assert_eq!(first, next, "topo_sort must be deterministic");
    }
}

#[test]
fn parents_and_children() {
    let mut dag = Dag::<&str>::new();
    let a = dag.add_node("a");
    let b = dag.add_node("b");
    let c = dag.add_node("c");
    dag.add_edge(a, b).unwrap();
    dag.add_edge(b, c).unwrap();

    assert_eq!(dag.parents(b), vec![a]);
    assert_eq!(dag.children(b), vec![c]);
}

#[test]
fn edge_count_tracks_inserts() {
    let dag = linear_chain();
    assert_eq!(dag.node_count(), 3);
    assert_eq!(dag.edge_count(), 2);
}

#[test]
fn edge_to_missing_node_is_refused() {
    let mut dag = Dag::<&str>::new();
    let a = dag.add_node("a");
    let missing = NodeIndex(7);
    assert_eq!(dag.add_edge(a, missing), Err(DagError::UnknownNode(missing)));
    assert_eq!(dag.add_edge(missing, a), Err(DagError::UnknownNode(missing)));
    assert_eq!(dag.edge_count(), 0);
    assert!(dag.payload(missing).is_none());
}

#[test]
fn self_loop_is_a_cycle() {
    let mut dag = Dag::<&str>::new();
    let a = dag.add_node("a");
    dag.add_edge(a, a).unwrap();
    assert_eq!(dag.topo_sort(), Err(DagError::Cycle(a)));
    assert_eq!(dag.cycle_check(), Err(DagError::Cycle(a)));
}

#[test]
fn error_messages_name_the_nodes() {
    let missing = NodeIndex(7);
    let other = NodeIndex(2);
    assert_eq!(
        DagError::UnknownNode(missing).message(),
        "unknown node: NodeIndex(7)"
    );
    assert_eq!(
        DagError::Cycle(missing).message(),
        "DAG contains a cycle through node NodeIndex(7)"
    );
    assert_eq!(
        DagError::DuplicateEdge { from: missing, to: other }.message(),
        "duplicate edge NodeIndex(7) -> NodeIndex(2)"
    );
}

#[test]
fn edges_come_in_insertion_order() {
    let mut dag = Dag::<&str>::new();
    let a = dag.add_node("a");
    let b = dag.add_node("b");
    let c = dag.add_node("c");
    dag.add_edge(b, c).unwrap();
    dag.add_edge(a, c).unwrap();
    assert_eq!(dag.edges(), vec![(b, c), (a, c)]);
    assert_eq!(dag.parents(c), vec![a, b]);
}

#[test]
fn lone_node_among_others_is_not_reachable() {
    let mut dag = Dag::<&str>::new();
    assert!(dag.every_task_reachable());
    let a = dag.add_node("a");
    assert!(dag.every_task_reachable());
    let b = dag.add_node("b");
    assert!(!dag.every_task_reachable());
    dag.add_edge(a, b).unwrap();
    assert!(dag.every_task_reachable());
    dag.add_node("c");
    assert!(!dag.every_task_reachable());
}

#[test]
fn copy_of_a_dag_is_the_same_dag() {
    let mut dag = Dag::<String>::new();
    let a = dag.add_node("a".to_string());
    let b = dag.add_node("b".to_string());
    dag.add_edge(a, b).unwrap();
    let copy = dag.clone();
    assert_eq!(copy.edges(), dag.edges());
    assert_eq!(copy.payload(b), Some(&"b".to_string()));
    assert_eq!(Dag::<String>::default().node_count(), 0);
}

#[test]
fn ties_go_to_the_node_added_first() {
    let mut dag = Dag::<&str>::new();
    let a = dag.add_node("a");
    let b = dag.add_node("b");
    let c = dag.add_node("c");
    assert_eq!(dag.topo_sort().unwrap(), vec![a, b, c]);
    dag.add_edge(c, a).unwrap();
    assert_eq!(dag.topo_sort().unwrap(), vec![b, c, a]);
}

#[test]
fn order_of_edges_does_not_matter() {
    let ends = [(0, 1), (0, 2), (1, 3), (2, 3)];
    let sorted = |order: [usize; 4]| {
        let mut dag = Dag::<usize>::new();
        let nodes: Vec<NodeIndex> = (0..4).map(|n| dag.add_node(n)).collect();
        for k in order {
            dag.add_edge(nodes[ends[k].0], nodes[ends[k].1]).unwrap();
        }
        dag.topo_sort().unwrap()
    };
    let expected = vec![NodeIndex(0), NodeIndex(1), NodeIndex(2), NodeIndex(3)];
    assert_eq!(sorted([0, 1, 2, 3]), expected);
    assert_eq!(sorted([3, 2, 1, 0]), expected);
    assert_eq!(sorted([1, 3, 0, 2]), expected);
}
