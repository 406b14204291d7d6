use dagflow::commands::validate;
use dagflow::dag::DagError;
use dagflow::digraph::NodeIndex;
use dagflow::spec::{DagSpec, SpecError, TaskSpec};
use dagflow::task::TaskOutput;

fn text_of(value: &serde_yaml::Value) -> String {
    value.as_str().unwrap().to_string()
}

fn list_of(value: Option<&serde_yaml::Value>) -> Vec<String> {
    match value {
        Some(list) => list.as_sequence().unwrap().iter().map(text_of).collect(),
        None => Vec::new(),
    }
}

fn from_yaml(yaml: &str) -> DagSpec {
    let root: serde_yaml::Value = serde_yaml::from_str(yaml).unwrap();
    DagSpec {
        name: text_of(root.get("name").unwrap()),
        description: root.get("description").map(text_of).unwrap_or_default(),
        tasks: root
            .get("tasks")
            .unwrap()
            .as_sequence()
            .unwrap()
            .iter()
            .map(|task| TaskSpec {
                id: text_of(task.get("id").unwrap()),
                depends_on: list_of(task.get("depends_on")),
            })
            .collect(),
    }
}

fn spec(tasks: &[(&str, &[&str])]) -> DagSpec {
    DagSpec {
        name: "test".to_string(),
        description: String::new(),
        tasks: tasks
            .iter()
            .map(|(id, depends_on)| TaskSpec {
                id: id.to_string(),
                depends_on: depends_on.iter().map(|d| d.to_string()).collect(),
            })
            .collect(),
    }
}

#[test]
fn dag_spec_yaml_roundtrip() {
    let yaml = r#"
name: etl
description: tiny ETL
tasks:
  - id: extract
  - id: transform
    depends_on: [extract]
  - id: load
    depends_on: [transform]
"#;
    let spec = from_yaml(yaml);
    assert_eq!(spec.tasks.len(), 3);
    let dag = spec.build().unwrap();
    let order = dag.topo_sort().unwrap();
    let names: Vec<String> = dag.payloads(&order).into_iter().cloned().collect();
    assert_eq!(names, vec!["extract", "transform", "load"]);
}

#[test]
fn dag_spec_dangling_dep_errors() {
    let yaml = r#"
name: bad
tasks:
  - id: a
    depends_on: [ghost]
"#;
    let spec = from_yaml(yaml);
    let err = spec.build().unwrap_err();
    assert!(err.message().contains("ghost"));
}

#[test]
fn build_runnable_dag_from_minimal_spec() {
    let spec = from_yaml(
        r#"
name: minimal
tasks:
  - id: a
  - id: b
    depends_on: [a]
"#,
    );
    let dag = spec.build_runnable_dag().unwrap();
    assert_eq!(dag.node_count(), 2);
    assert_eq!(dag.edge_count(), 1);
}

#[test]
fn dangling_dependency_messages() {
    let spec = spec(&[("a", &["ghost"])]);
    assert_eq!(
        spec.build().unwrap_err().message(),
        "task 'a' depends on unknown 'ghost'"
    );
    assert_eq!(
        spec.build_runnable_dag().unwrap_err().runnable_message(),
        "'a' depends on unknown 'ghost'"
    );
}

#[test]
fn repeated_id_is_refused_by_build_alone() {
    let spec = spec(&[("a", &[]), ("b", &["a"]), ("a", &[])]);
    let err = spec.build().unwrap_err();
    assert!(matches!(&err, SpecError::DuplicateTask { id } if id == "a"));
    assert_eq!(err.message(), "duplicate task id: a");
    let dag = spec.build_runnable_dag().unwrap().with_payloads(vec![10, 20, 30]);
    let edges: Vec<(i32, i32)> = dag
        .edges()
        .into_iter()
        .map(|(from, to)| (*dag.payload(from).unwrap(), *dag.payload(to).unwrap()))
        .collect();
    assert_eq!(edges, vec![(30, 20)]);
}

#[test]
fn repeated_dependency_is_refused() {
    let err = spec(&[("a", &[]), ("b", &["a", "a"])]).build().unwrap_err();
    match err {
        SpecError::RefusedEdge { task, dependency, error } => {
            assert_eq!(task, "b");
            assert_eq!(dependency, "a");
            assert!(matches!(error, DagError::DuplicateEdge { .. }));
            assert_eq!(error.message(), "duplicate edge NodeIndex(0) -> NodeIndex(1)");
        }
        _ => panic!("the repeated dependency was not noticed"),
    }
}

#[test]
fn circular_dependencies_are_refused() {
    let spec = spec(&[("a", &["b"]), ("b", &["a"])]);
    let err = spec.build().unwrap_err();
    assert!(matches!(err, SpecError::Cyclic(DagError::Cycle(_))));
    assert!(err.message().starts_with("DAG contains a cycle through node NodeIndex("));
}

#[test]
fn tasks_may_be_written_in_any_order() {
    let spec = spec(&[("load", &["transform"]), ("transform", &["extract"]), ("extract", &[])]);
    let dag = spec.build().unwrap();
    let order = dag.topo_sort().unwrap();
    let names: Vec<String> = dag.payloads(&order).into_iter().cloned().collect();
    assert_eq!(names, vec!["extract", "transform", "load"]);
}

#[test]
fn validation_tells_counts_and_order() {
    let spec = spec(&[("load", &["extract"]), ("extract", &[])]);
    assert_eq!(validate(&spec, false).unwrap(), "OK: test (2 tasks, 1 edges)\n");
    assert_eq!(
        validate(&spec, true).unwrap(),
        "OK: test (2 tasks, 1 edges)\n  - extract\n  - load\n"
    );
}

#[test]
fn validation_refuses_what_build_refuses() {
    let spec = spec(&[("a", &["a"])]);
    assert!(matches!(validate(&spec, true), Err(SpecError::Cyclic(_))));
}

#[test]
fn runnable_tasks_hand_on_their_ids() {
    let spec = spec(&[("load", &["extract"]), ("extract", &[])]);
    let dag = spec.build_runnable_dag().unwrap();
    let plain = spec.build().unwrap();
    assert_eq!(dag.edges(), plain.edges());
    for (place, id) in ["load", "extract"].iter().enumerate() {
        let task = dag.payload(NodeIndex(place as u32)).unwrap();
        assert_eq!(&task.id, id);
        assert_eq!(task.output(), TaskOutput::Text(id.to_string()));
        assert_eq!(task.clone().output(), task.output());
    }
}

#[test]
fn copy_of_a_specification_describes_the_same() {
    let spec = spec(&[("load", &["extract"]), ("extract", &[])]);
    let copy = spec.clone();
    assert_eq!(copy.name, spec.name);
    assert_eq!(copy.tasks[0].clone().depends_on, vec!["extract"]);
    assert_eq!(copy.build().unwrap().edges(), spec.build().unwrap().edges());
}
