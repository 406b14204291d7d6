use std::path::PathBuf;

use dagflow::dag::{Dag, DagError};
use dagflow::lineage::{
    read_edges, read_task_runs, settle_query, LineageEdge, LineageEdgeRow, LineageError, TaskRunRecord,
    TaskRunRow,
};
use dagflow::local::{LocalRun, StateChange, Step};
use dagflow::mermaid::render_mermaid;
use dagflow::queries::{
    description_for_run, edge_count, edges_for_run, edges_of_all_runs, init_schema,
    query_downstream, query_upstream, record_description, record_edge, record_task_run,
    task_recorded, task_runs_for_run, task_runs_of_all_runs, Query,
};
use dagflow::report::RunReport;
use dagflow::state::TaskState;
use dagflow::task::{Context, TaskOutput};
use dagflow::time::Timestamp;
use sqlx::Row;

fn now() -> Timestamp {
    let t = chrono::Utc::now();
    Timestamp { seconds: t.timestamp(), nanos: t.timestamp_subsec_nanos() }
}

fn block_on<F: std::future::Future>(future: F) -> F::Output {
    tokio::runtime::Builder::new_current_thread()
        .enable_all()
        .build()
        .unwrap()
        .block_on(future)
}

struct Store {
    pool: sqlx::Pool<sqlx::Sqlite>,
}

impl Store {
    async fn open_memory() -> Store {
        let opts = sqlx::sqlite::SqliteConnectOptions::new()
            .in_memory(true)
            .create_if_missing(true);
        let pool = sqlx::sqlite::SqlitePoolOptions::new()
            .max_connections(1)
            .connect_with(opts)
            .await
            .unwrap();
        let store = Store { pool };
        for query in init_schema() {
            store.execute(&query).await;
        }
        store
    }

    async fn execute(&self, query: &Query) {
        let mut statement = sqlx::query(query.sql);
        for bind in &query.binds {
            statement = statement.bind(bind.clone());
        }
        statement.execute(&self.pool).await.unwrap();
    }

    async fn fetch(&self, query: &Query) -> Vec<sqlx::sqlite::SqliteRow> {
        let mut statement = sqlx::query(query.sql);
        for bind in &query.binds {
            statement = statement.bind(bind.clone());
        }
        statement.fetch_all(&self.pool).await.unwrap()
    }

    async fn record_task_run(&self, record: &TaskRunRecord) {
        self.execute(&record_task_run(record)).await;
    }

    async fn record_edge(&self, run_id: &str, upstream: &str, downstream: &str) {
        self.execute(&record_edge(run_id, upstream, downstream, &now())).await;
    }

    async fn edge_count(&self, run_id: Option<&str>) -> i64 {
        self.fetch(&edge_count(run_id)).await[0].try_get("n").unwrap()
    }

    async fn names(&self, query: &Query) -> Vec<String> {
        let rows = self.fetch(query).await;
        rows.iter().map(|row| row.try_get(0).unwrap()).collect()
    }

    async fn edges_for_run(&self, run_id: &str) -> Vec<LineageEdge> {
        let rows: Vec<LineageEdgeRow> = self
            .fetch(&edges_for_run(run_id))
            .await
            .iter()
            .map(|row| LineageEdgeRow {
                run_id: row.try_get("run_id").unwrap(),
                upstream_id: row.try_get("upstream_id").unwrap(),
                downstream_id: row.try_get("downstream_id").unwrap(),
                recorded_at: row.try_get("recorded_at").unwrap(),
            })
            .collect();
        read_edges(&rows).unwrap()
    }

    async fn task_runs_for_run(&self, run_id: &str) -> Vec<TaskRunRecord> {
        let rows: Vec<TaskRunRow> = self
            .fetch(&task_runs_for_run(run_id))
            .await
            .iter()
            .map(|row| TaskRunRow {
                run_id: row.try_get("run_id").unwrap(),
                task_id: row.try_get("task_id").unwrap(),
                state: row.try_get("state").unwrap(),
                started_at: row.try_get("started_at").unwrap(),
                finished_at: row.try_get("finished_at").unwrap(),
                output_json: row.try_get("output_json").unwrap(),
            })
            .collect();
        read_task_runs(&rows).unwrap()
    }

    async fn render_mermaid(&self, run_id: &str) -> String {
        let described = self.names(&description_for_run(run_id)).await;
        render_mermaid(
            described.first().map(|d| d.as_str()).unwrap_or(""),
            &self.edges_for_run(run_id).await,
            &self.task_runs_for_run(run_id).await,
        )
    }
}

fn rec(run_id: &str, task_id: &str, state: &str) -> TaskRunRecord {
    TaskRunRecord {
        run_id: run_id.into(),
        task_id: task_id.into(),
        state: state.into(),
        started_at: now(),
        finished_at: Some(now()),
        output_json: Some("{}".into()),
    }
}

#[test]
fn record_and_query_roundtrip() {
    block_on(async {
        let store = Store::open_memory().await;
        store.record_task_run(&rec("r1", "extract", "Succeeded")).await;
        store.record_task_run(&rec("r1", "transform", "Succeeded")).await;
        store.record_edge("r1", "extract", "transform").await;

        assert_eq!(store.edge_count(Some("r1")).await, 1);
        assert_eq!(store.names(&query_upstream(Some("r1"), "transform")).await, vec!["extract"]);
        assert_eq!(store.names(&query_downstream(Some("r1"), "extract")).await, vec!["transform"]);
    });
}

#[test]
fn duplicate_edge_is_idempotent() {
    block_on(async {
        let store = Store::open_memory().await;
        store.record_edge("r1", "a", "b").await;
        store.record_edge("r1", "a", "b").await;
        store.record_edge("r1", "a", "b").await;
        assert_eq!(store.edge_count(Some("r1")).await, 1);
    });
}

#[test]
fn upsert_overwrites_state() {
    block_on(async {
        let store = Store::open_memory().await;
        store.record_task_run(&rec("r1", "extract", "Running")).await;
        store.record_task_run(&rec("r1", "extract", "Succeeded")).await;
        let runs = store.task_runs_for_run("r1").await;
        assert_eq!(runs.len(), 1);
        assert_eq!(runs[0].state, "Succeeded");
    });
}

#[test]
fn mermaid_render_includes_node_and_edge() {
    block_on(async {
        let store = Store::open_memory().await;
        store.record_task_run(&rec("r1", "extract", "Succeeded")).await;
        store.record_task_run(&rec("r1", "transform", "Succeeded")).await;
        store.record_edge("r1", "extract", "transform").await;
        let mermaid = store.render_mermaid("r1").await;
        assert!(mermaid.starts_with("graph TD"));
        assert!(mermaid.contains("[\"extract\"]"));
        assert!(mermaid.contains("[\"transform\"]"));
        assert!(mermaid.contains("--> "));
    });
}

#[test]
fn records_read_back_as_they_were_stored() {
    block_on(async {
        let store = Store::open_memory().await;
        let mut record = rec("r1", "extract", "Running");
        record.finished_at = None;
        record.output_json = None;
        store.record_task_run(&record).await;
        assert_eq!(store.task_runs_for_run("r1").await, vec![record]);
        assert!(store.task_runs_for_run("r2").await.is_empty());
        assert_eq!(store.edge_count(None).await, 0);
        store.record_edge("r2", "a", "b").await;
        store.record_edge("r1", "a", "b").await;
        assert_eq!(store.edge_count(None).await, 2);
    });
}

#[test]
fn mermaid_drawing_in_full() {
    let edge = |upstream: &str, downstream: &str| LineageEdge {
        run_id: "r".to_string(),
        upstream_id: upstream.to_string(),
        downstream_id: downstream.to_string(),
        recorded_at: now(),
    };
    let drawing = render_mermaid(
        "",
        &vec![edge("load", "alert"), edge("extract", "load")],
        &vec![rec("r", "zip", "Succeeded"), rec("r", "load", "Succeeded")],
    );
    assert_eq!(
        drawing,
        "graph TD\n    t0[\"alert\"]\n    t1[\"extract\"]\n    t2[\"load\"]\n    t3[\"zip\"]\n    \
         t2 --> t0\n    t1 --> t2\n"
    );
    assert_eq!(render_mermaid("", &Vec::new(), &Vec::new()), "graph TD\n");
    assert_eq!(
        render_mermaid("tiny\nETL", &Vec::new(), &Vec::new()),
        "graph TD\n    accDescr: tiny ETL\n"
    );
}

#[test]
fn lineage_without_a_run_is_that_of_all_runs() {
    block_on(async {
        let store = Store::open_memory().await;
        store.record_edge("r1", "a", "b").await;
        assert_eq!(store.names(&query_upstream(None, "b")).await, vec!["a"]);
        assert!(store.names(&query_downstream(None, "b")).await.is_empty());
        store.record_edge("r2", "a", "b").await;
        store.record_edge("r2", "c", "b").await;
        assert_eq!(store.names(&query_upstream(None, "b")).await, vec!["a", "c"]);
        assert_eq!(store.names(&query_downstream(None, "a")).await, vec!["b"]);
        assert_eq!(store.names(&query_upstream(Some("r1"), "b")).await, vec!["a"]);
        assert_eq!(store.fetch(&edges_of_all_runs()).await.len(), 2);
        store.record_task_run(&rec("r1", "z", "Running")).await;
        assert_eq!(store.fetch(&task_runs_of_all_runs()).await.len(), 1);
    });
}

#[test]
fn tasks_that_were_never_recorded_are_unknown() {
    block_on(async {
        let store = Store::open_memory().await;
        store.record_edge("r1", "a", "b").await;
        store.record_task_run(&rec("r2", "z", "Running")).await;
        for (task_id, expected) in [("a", 1), ("b", 1), ("z", 1), ("ghost", 0)] {
            let n: i64 = store.fetch(&task_recorded(task_id)).await[0].try_get("n").unwrap();
            assert_eq!(n, expected);
        }
        assert!(store.names(&query_upstream(Some("r2"), "b")).await.is_empty());
    });
    assert_eq!(
        settle_query("ghost", false, Vec::new()),
        Err(LineageError::UnknownTask("ghost".to_string()))
    );
    assert_eq!(settle_query("b", true, vec!["a".to_string()]), Ok(vec!["a".to_string()]));
    assert_eq!(settle_query("b", true, Vec::new()), Ok(Vec::new()));
}

#[test]
fn descriptions_flow_into_the_drawing() {
    block_on(async {
        let store = Store::open_memory().await;
        store.execute(&record_description("r1", "old")).await;
        store.execute(&record_description("r1", "tiny ETL")).await;
        store.record_task_run(&rec("r1", "a", "Running")).await;
        assert_eq!(
            store.render_mermaid("r1").await,
            "graph TD\n    accDescr: tiny ETL\n    t0[\"a\"]\n"
        );
    });
}

#[test]
fn unreadable_rows_are_refused() {
    let edge = LineageEdgeRow {
        run_id: "r".to_string(),
        upstream_id: "a".to_string(),
        downstream_id: "b".to_string(),
        recorded_at: "yesterday".to_string(),
    };
    assert_eq!(read_edges(&vec![edge]).unwrap_err().text, "yesterday");
    let mut row = rec("r", "a", "Failed").to_row();
    row.finished_at = Some("soon".to_string());
    assert_eq!(TaskRunRecord::from_row(&row).unwrap_err().text, "soon");
    row.started_at = "late".to_string();
    assert_eq!(read_task_runs(&vec![row]).unwrap_err().text, "late");
}

#[test]
fn records_for_states() {
    let t = now();
    let running = TaskRunRecord::for_state("r", "a", TaskState::Running, None, t);
    assert_eq!(running.state, "Running");
    assert_eq!(running.started_at, t);
    assert_eq!(running.finished_at, None);
    let failed =
        TaskRunRecord::for_state("r", "a", TaskState::Failed, Some("{}".to_string()), t);
    assert_eq!(failed.finished_at, Some(t));
    assert_eq!(failed.output_json, Some("{}".to_string()));
}

#[test]
fn unknown_tasks_are_named() {
    assert_eq!(
        LineageError::UnknownTask("ghost".to_string()).message(),
        "unknown task id: ghost"
    );
}

type Body = fn(&Context) -> Result<TaskOutput, String>;

fn upstream(ctx: &Context, id: &str) -> i64 {
    match ctx.get(id) {
        Some(TaskOutput::Int(n)) => n,
        _ => 0,
    }
}

fn linear_dag() -> (Dag<Body>, Vec<String>) {
    let mut dag: Dag<Body> = Dag::new();
    let a = dag.add_node(|_| Ok(TaskOutput::Int(1)));
    let b = dag.add_node(|ctx| Ok(TaskOutput::Int(upstream(ctx, "a") + 1)));
    let c = dag.add_node(|ctx| Ok(TaskOutput::Int(upstream(ctx, "b") * 10)));
    dag.add_edge(a, b).unwrap();
    dag.add_edge(b, c).unwrap();
    (dag, vec!["a".to_string(), "b".to_string(), "c".to_string()])
}

fn failing_dag() -> (Dag<Body>, Vec<String>) {
    let mut dag: Dag<Body> = Dag::new();
    let a = dag.add_node(|_| Err("boom".to_string()));
    let b = dag.add_node(|_| Ok(TaskOutput::Int(1)));
    dag.add_edge(a, b).unwrap();
    (dag, vec!["a".to_string(), "b".to_string()])
}

fn run_locally(
    run_id: &str,
    dag: &Dag<Body>,
    ids: &Vec<String>,
    changes: &mut Vec<StateChange>,
) -> RunReport {
    let mut run = LocalRun::new(run_id, dag, ids).unwrap();
    let mut ctx = Context::new(run_id.to_string(), PathBuf::from("/tmp"));
    loop {
        match run.next_task() {
            Step::Execute { node, change } => {
                changes.push(change);
                let outcome = dag.payload(node).unwrap()(&ctx);
                changes.push(run.finish_task(&mut ctx, &outcome));
            }
            Step::Skip { change } => changes.push(change),
            Step::Done => return run.into_report(),
        }
    }
}

#[test]
fn linear_dag_succeeds_and_passes_state() {
    let (dag, ids) = linear_dag();
    let report = run_locally("r-test", &dag, &ids, &mut Vec::new());

    assert!(report.all_succeeded());
    assert_eq!(report.topo_order, vec!["a", "b", "c"]);
    assert_eq!(report.task_outputs.get("a").unwrap().text(), "1");
    assert_eq!(report.task_outputs.get("b").unwrap().text(), "2");
    assert_eq!(report.task_outputs.get("c").unwrap().text(), "20");
}

#[test]
fn lineage_edges_recorded() {
    block_on(async {
        let store = Store::open_memory().await;
        let (dag, ids) = linear_dag();
        let run = LocalRun::new("r-test", &dag, &ids).unwrap();
        for (upstream, downstream) in run.lineage() {
            store.record_edge("r-test", upstream, downstream).await;
        }
        assert_eq!(store.edge_count(Some("r-test")).await, 2);
    });
}

#[test]
fn fail_fast_marks_downstream_skipped() {
    let (dag, ids) = failing_dag();
    let report = run_locally("r-fail", &dag, &ids, &mut Vec::new());
    assert_eq!(report.task_states.get("a"), Some(&TaskState::Failed));
    assert_eq!(report.task_states.get("b"), Some(&TaskState::Skipped));
    assert!(!report.all_succeeded());
}

#[test]
fn topo_order_is_deterministic_across_runs() {
    let (dag, ids) = linear_dag();
    let r1 = run_locally("r1", &dag, &ids, &mut Vec::new());
    let r2 = run_locally("r2", &dag, &ids, &mut Vec::new());
    assert_eq!(r1.topo_order, r2.topo_order);
}

#[test]
fn every_change_of_a_failing_run_is_told() {
    let (dag, ids) = failing_dag();
    let mut changes = Vec::new();
    let report = run_locally("r-fail", &dag, &ids, &mut changes);
    let told: Vec<(&str, TaskState, Option<&str>)> = changes
        .iter()
        .map(|c| (c.task_id.as_str(), c.state, c.output_json.as_deref()))
        .collect();
    assert_eq!(
        told,
        vec![
            ("a", TaskState::Running, None),
            ("a", TaskState::Failed, Some("{\"error\":\"boom\"}")),
            ("b", TaskState::Skipped, None),
        ]
    );
    assert_eq!(report.task_outputs.get("a").unwrap().text(), "{\"error\":\"boom\"}");
    assert!(report.task_outputs.get("b").is_none());
    assert_eq!(report.topo_order, vec!["a", "b"]);
    assert_eq!(report.run_id, "r-fail");
}

#[test]
fn cyclic_dag_is_not_run() {
    let mut dag: Dag<Body> = Dag::new();
    let a = dag.add_node(|_| Ok(TaskOutput::Unit));
    dag.add_edge(a, a).unwrap();
    let planned = LocalRun::new("r", &dag, &vec!["a".to_string()]);
    assert!(matches!(planned, Err(DagError::Cycle(node)) if node == a));
}

#[test]
fn empty_dag_succeeds() {
    let dag: Dag<Body> = Dag::new();
    let report = run_locally("r", &dag, &Vec::new(), &mut Vec::new());
    assert!(report.all_succeeded());
    assert!(report.topo_order.is_empty());
}

#[test]
fn copies_are_the_same() {
    let (dag, ids) = failing_dag();
    let report = run_locally("r", &dag, &ids, &mut Vec::new());
    assert_eq!(report.clone(), report);
    let record = rec("r", "a", "Failed");
    assert_eq!(record.clone(), record);
    let edge = LineageEdge {
        run_id: "r".to_string(),
        upstream_id: "a".to_string(),
        downstream_id: "b".to_string(),
        recorded_at: now(),
    };
    assert_eq!(edge.clone(), edge);
}
