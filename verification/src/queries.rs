//! The statements by which lineage is stored and asked for.
use vstd::prelude::*;

use crate::lineage::{
    LineageEdge, LineageEdgeRowView, LineageEdgeView, TaskRunRecord, TaskRunRowView, TaskRunView,
};
use crate::time::{rfc3339_instant, rfc3339_text, Timestamp};

verus! {

/// Makes the table of task executions.
pub const CREATE_TASK_RUNS: &'static str =
    "CREATE TABLE IF NOT EXISTS task_runs (run_id TEXT NOT NULL, task_id TEXT NOT NULL, state TEXT NOT NULL, started_at TEXT NOT NULL, finished_at TEXT, output_json TEXT, PRIMARY KEY (run_id, task_id))";

/// Makes the table of edges.
pub const CREATE_LINEAGE_EDGES: &'static str =
    "CREATE TABLE IF NOT EXISTS lineage_edges (run_id TEXT NOT NULL, upstream_id TEXT NOT NULL, downstream_id TEXT NOT NULL, recorded_at TEXT NOT NULL, PRIMARY KEY (run_id, upstream_id, downstream_id))";

/// Makes the table of what runs are described by.
pub const CREATE_RUN_DESCRIPTIONS: &'static str =
    "CREATE TABLE IF NOT EXISTS run_descriptions (run_id TEXT NOT NULL, description TEXT NOT NULL, PRIMARY KEY (run_id))";

/// Stores a task execution; one that is stored keeps its start.
pub const UPSERT_TASK_RUN: &'static str =
    "INSERT INTO task_runs (run_id, task_id, state, started_at, finished_at, output_json) VALUES (?, ?, ?, ?, ?, ?) ON CONFLICT(run_id, task_id) DO UPDATE SET state = excluded.state, finished_at = excluded.finished_at, output_json = excluded.output_json";

/// Stores an edge; one that is stored stays as it is.
pub const INSERT_EDGE: &'static str =
    "INSERT OR IGNORE INTO lineage_edges (run_id, upstream_id, downstream_id, recorded_at) VALUES (?, ?, ?, ?)";

/// Stores what a run is described by, in place of what it was.
pub const UPSERT_DESCRIPTION: &'static str =
    "INSERT INTO run_descriptions (run_id, description) VALUES (?, ?) ON CONFLICT(run_id) DO UPDATE SET description = excluded.description";

/// Counts the edges of a run.
pub const COUNT_RUN_EDGES: &'static str =
    "SELECT COUNT(*) AS n FROM lineage_edges WHERE run_id = ?";

/// Counts the edges of all runs.
pub const COUNT_EDGES: &'static str = "SELECT COUNT(*) AS n FROM lineage_edges";

/// Lists the tasks just upstream of one.
pub const SELECT_UPSTREAM: &'static str =
    "SELECT upstream_id FROM lineage_edges WHERE run_id = ? AND downstream_id = ? ORDER BY upstream_id";

/// Lists the tasks just upstream of one in whatever run, each once.
pub const SELECT_UPSTREAM_OF_ALL_RUNS: &'static str =
    "SELECT DISTINCT upstream_id FROM lineage_edges WHERE downstream_id = ? ORDER BY upstream_id";

/// Lists the tasks just downstream of one.
pub const SELECT_DOWNSTREAM: &'static str =
    "SELECT downstream_id FROM lineage_edges WHERE run_id = ? AND upstream_id = ? ORDER BY downstream_id";

/// Lists the tasks just downstream of one in whatever run, each once.
pub const SELECT_DOWNSTREAM_OF_ALL_RUNS: &'static str =
    "SELECT DISTINCT downstream_id FROM lineage_edges WHERE upstream_id = ? ORDER BY downstream_id";

/// Tells whether any run has a record of a task or an edge at it.
pub const SELECT_RECORDED: &'static str =
    "SELECT EXISTS (SELECT 1 FROM task_runs WHERE task_id = ?1) OR EXISTS (SELECT 1 FROM lineage_edges WHERE upstream_id = ?1 OR downstream_id = ?1) AS n";

/// Lists the edges of a run.
pub const SELECT_EDGES: &'static str =
    "SELECT run_id, upstream_id, downstream_id, recorded_at FROM lineage_edges WHERE run_id = ? ORDER BY upstream_id, downstream_id";

/// Lists the task executions of a run.
pub const SELECT_TASK_RUNS: &'static str =
    "SELECT run_id, task_id, state, started_at, finished_at, output_json FROM task_runs WHERE run_id = ? ORDER BY task_id";

/// Lists the edges of all runs, each as it was first recorded.
pub const SELECT_EDGES_OF_ALL_RUNS: &'static str =
    "SELECT run_id, upstream_id, downstream_id, MIN(recorded_at) AS recorded_at FROM lineage_edges GROUP BY upstream_id, downstream_id ORDER BY upstream_id, downstream_id";

/// Lists the task executions of all runs.
pub const SELECT_TASK_RUNS_OF_ALL_RUNS: &'static str =
    "SELECT run_id, task_id, state, started_at, finished_at, output_json FROM task_runs ORDER BY task_id, run_id";

/// Reads what a run is described by.
pub const SELECT_DESCRIPTION: &'static str =
    "SELECT description FROM run_descriptions WHERE run_id = ?";

/// A statement with the values for its places, in their order.
#[derive(Debug, PartialEq, Eq)]
pub struct Query {
    pub sql: &'static str,
    pub binds: Vec<Option<String>>,
}

/// What bound values say.
pub open spec fn bind_texts(binds: Seq<Option<String>>) -> Seq<Option<Seq<char>>> {
    binds.map_values(
        |bind: Option<String>|
            match bind {
                Some(text) => Some(text@),
                None => None,
            },
    )
}

impl Query {
    /// The statement is `sql`, with `binds` for its places.
    pub open spec fn says(self, sql: &str, binds: Seq<Option<Seq<char>>>) -> bool {
        self.sql@ == sql@ && bind_texts(self.binds@) == binds
    }
}

fn query_with_none(sql: &'static str) -> (query: Query)
    ensures
        query.says(sql, Seq::empty()),
        query.sql@ == sql@,
        query.binds@.len() == 0,
{
    let query = Query { sql, binds: Vec::new() };
    assert(bind_texts(query.binds@) =~= Seq::empty());
    query
}

fn query_with_one(sql: &'static str, a: &str) -> (query: Query)
    ensures
        query.says(sql, seq![Some(a@)]),
        query.sql@ == sql@,
        query.binds@.len() == 1,
        query.binds@[0] matches Some(bind) && bind@ == a@,
{
    let mut binds: Vec<Option<String>> = Vec::new();
    binds.push(Some(a.to_owned()));
    let query = Query { sql, binds };
    assert(bind_texts(query.binds@) =~= seq![Some(a@)]);
    query
}

fn query_with_two(sql: &'static str, a: &str, b: &str) -> (query: Query)
    ensures
        query.says(sql, seq![Some(a@), Some(b@)]),
        query.sql@ == sql@,
        query.binds@.len() == 2,
        query.binds@[0] matches Some(bind) && bind@ == a@,
        query.binds@[1] matches Some(bind) && bind@ == b@,
{
    let mut binds: Vec<Option<String>> = Vec::new();
    binds.push(Some(a.to_owned()));
    binds.push(Some(b.to_owned()));
    let query = Query { sql, binds };
    assert(bind_texts(query.binds@) =~= seq![Some(a@), Some(b@)]);
    query
}

/// The statements that make the tables where they are not there yet.
pub fn init_schema() -> (queries: Vec<Query>)
    ensures
        queries@.len() == 3,
        queries@[0].says(CREATE_TASK_RUNS, Seq::empty()),
        queries@[1].says(CREATE_LINEAGE_EDGES, Seq::empty()),
        queries@[2].says(CREATE_RUN_DESCRIPTIONS, Seq::empty()),
        queries@[0].sql@ == CREATE_TASK_RUNS@ && queries@[0].binds@.len() == 0,
        queries@[1].sql@ == CREATE_LINEAGE_EDGES@ && queries@[1].binds@.len() == 0,
        queries@[2].sql@ == CREATE_RUN_DESCRIPTIONS@ && queries@[2].binds@.len() == 0,
{
    let mut queries: Vec<Query> = Vec::new();
    queries.push(query_with_none(CREATE_TASK_RUNS));
    queries.push(query_with_none(CREATE_LINEAGE_EDGES));
    queries.push(query_with_none(CREATE_RUN_DESCRIPTIONS));
    queries
}

/// The statement that stores a task execution. Where the years have four
/// digits, the values that it stores read back as the record.
pub fn record_task_run(record: &TaskRunRecord) -> (query: Query)
    requires
        record.wf(),
    ensures
        query.says(UPSERT_TASK_RUN, record@.row().columns()),
        record.in_four_digit_years() ==> record@.row().record() == Some(record@),
        query.sql@ == UPSERT_TASK_RUN@,
        query.binds@.len() == 6,
        query.binds@[0] matches Some(bind) && bind@ == record.run_id@,
        query.binds@[1] matches Some(bind) && bind@ == record.task_id@,
        query.binds@[2] matches Some(bind) && bind@ == record.state@,
        query.binds@[3] matches Some(bind) && {
            &&& bind@ == rfc3339_text(
                record.started_at.seconds as int,
                record.started_at.nanos as int,
            )
            &&& record.started_at.in_four_digit_year() ==> rfc3339_instant(bind@) == Some(
                record.started_at.parts(),
            )
        },
        match record.finished_at {
            Some(finished_at) => query.binds@[4] matches Some(bind) && {
                &&& bind@ == rfc3339_text(finished_at.seconds as int, finished_at.nanos as int)
                &&& finished_at.in_four_digit_year() ==> rfc3339_instant(bind@) == Some(
                    finished_at.parts(),
                )
            },
            None => query.binds@[4] is None,
        },
        match record.output_json {
            Some(output_json) => query.binds@[5] matches Some(bind) && bind@ == output_json@,
            None => query.binds@[5] is None,
        },
{
    let row = record.to_row();
    let mut binds: Vec<Option<String>> = Vec::new();
    binds.push(Some(row.run_id));
    binds.push(Some(row.task_id));
    binds.push(Some(row.state));
    binds.push(Some(row.started_at));
    binds.push(row.finished_at);
    binds.push(row.output_json);
    let query = Query { sql: UPSERT_TASK_RUN, binds };
    assert(bind_texts(query.binds@) =~= record@.row().columns());
    query
}

/// The statement that stores an edge. Where the year has four digits, the values
/// that it stores read back as the edge.
pub fn record_edge(
    run_id: &str,
    upstream_id: &str,
    downstream_id: &str,
    now: &Timestamp,
) -> (query: Query)
    requires
        now.wf(),
    ensures
        query.says(
            INSERT_EDGE,
            seq![
                Some(run_id@),
                Some(upstream_id@),
                Some(downstream_id@),
                Some(rfc3339_text(now.seconds as int, now.nanos as int)),
            ],
        ),
        now.in_four_digit_year() ==> (LineageEdgeRowView {
            run_id: run_id@,
            upstream_id: upstream_id@,
            downstream_id: downstream_id@,
            recorded_at: rfc3339_text(now.seconds as int, now.nanos as int),
        }).edge() == Some(
            (LineageEdgeView {
                run_id: run_id@,
                upstream_id: upstream_id@,
                downstream_id: downstream_id@,
                recorded_at: now.parts(),
            }),
        ),
        query.sql@ == INSERT_EDGE@,
        query.binds@.len() == 4,
        query.binds@[0] matches Some(bind) && bind@ == run_id@,
        query.binds@[1] matches Some(bind) && bind@ == upstream_id@,
        query.binds@[2] matches Some(bind) && bind@ == downstream_id@,
        query.binds@[3] matches Some(bind) && {
            &&& bind@ == rfc3339_text(now.seconds as int, now.nanos as int)
            &&& now.in_four_digit_year() ==> rfc3339_instant(bind@) == Some(now.parts())
        },
{
    let edge = LineageEdge {
        run_id: run_id.to_owned(),
        upstream_id: upstream_id.to_owned(),
        downstream_id: downstream_id.to_owned(),
        recorded_at: *now,
    };
    let row = edge.to_row();
    let ghost columns = row@.columns();
    let mut binds: Vec<Option<String>> = Vec::new();
    binds.push(Some(row.run_id));
    binds.push(Some(row.upstream_id));
    binds.push(Some(row.downstream_id));
    binds.push(Some(row.recorded_at));
    let query = Query { sql: INSERT_EDGE, binds };
    assert(bind_texts(query.binds@) =~= columns);
    query
}

/// The statement that counts the edges of a run, or of all runs.
pub fn edge_count(run_id: Option<&str>) -> (query: Query)
    ensures
        match run_id {
            Some(run_id) => {
                &&& query.says(COUNT_RUN_EDGES, seq![Some(run_id@)])
                &&& query.sql@ == COUNT_RUN_EDGES@
                &&& query.binds@.len() == 1
                &&& query.binds@[0] matches Some(bind) && bind@ == run_id@
            },
            None => {
                &&& query.says(COUNT_EDGES, Seq::empty())
                &&& query.sql@ == COUNT_EDGES@
                &&& query.binds@.len() == 0
            },
        },
{
    match run_id {
        Some(run_id) => query_with_one(COUNT_RUN_EDGES, run_id),
        None => query_with_none(COUNT_EDGES),
    }
}

/// The statement that lists the tasks just upstream of one, in a run or in
/// whatever run.
pub fn query_upstream(run_id: Option<&str>, task_id: &str) -> (query: Query)
    ensures
        match run_id {
            Some(run_id) => {
                &&& query.says(SELECT_UPSTREAM, seq![Some(run_id@), Some(task_id@)])
                &&& query.sql@ == SELECT_UPSTREAM@
                &&& query.binds@.len() == 2
                &&& query.binds@[0] matches Some(bind) && bind@ == run_id@
                &&& query.binds@[1] matches Some(bind) && bind@ == task_id@
            },
            None => {
                &&& query.says(SELECT_UPSTREAM_OF_ALL_RUNS, seq![Some(task_id@)])
                &&& query.sql@ == SELECT_UPSTREAM_OF_ALL_RUNS@
                &&& query.binds@.len() == 1
                &&& query.binds@[0] matches Some(bind) && bind@ == task_id@
            },
        },
{
    match run_id {
        Some(run_id) => query_with_two(SELECT_UPSTREAM, run_id, task_id),
        None => query_with_one(SELECT_UPSTREAM_OF_ALL_RUNS, task_id),
    }
}

/// The statement that lists the tasks just downstream of one, in a run or in
/// whatever run.
pub fn query_downstream(run_id: Option<&str>, task_id: &str) -> (query: Query)
    ensures
        match run_id {
            Some(run_id) => {
                &&& query.says(SELECT_DOWNSTREAM, seq![Some(run_id@), Some(task_id@)])
                &&& query.sql@ == SELECT_DOWNSTREAM@
                &&& query.binds@.len() == 2
                &&& query.binds@[0] matches Some(bind) && bind@ == run_id@
                &&& query.binds@[1] matches Some(bind) && bind@ == task_id@
            },
            None => {
                &&& query.says(SELECT_DOWNSTREAM_OF_ALL_RUNS, seq![Some(task_id@)])
                &&& query.sql@ == SELECT_DOWNSTREAM_OF_ALL_RUNS@
                &&& query.binds@.len() == 1
                &&& query.binds@[0] matches Some(bind) && bind@ == task_id@
            },
        },
{
    match run_id {
        Some(run_id) => query_with_two(SELECT_DOWNSTREAM, run_id, task_id),
        None => query_with_one(SELECT_DOWNSTREAM_OF_ALL_RUNS, task_id),
    }
}

/// The statement that tells whether a task was ever recorded, in whatever run.
pub fn task_recorded(task_id: &str) -> (query: Query)
    ensures
        query.says(SELECT_RECORDED, seq![Some(task_id@)]),
        query.sql@ == SELECT_RECORDED@,
        query.binds@.len() == 1,
        query.binds@[0] matches Some(bind) && bind@ == task_id@,
{
    query_with_one(SELECT_RECORDED, task_id)
}

/// The statement that stores what a run is described by.
pub fn record_description(run_id: &str, description: &str) -> (query: Query)
    ensures
        query.says(UPSERT_DESCRIPTION, seq![Some(run_id@), Some(description@)]),
        query.sql@ == UPSERT_DESCRIPTION@,
        query.binds@.len() == 2,
        query.binds@[0] matches Some(bind) && bind@ == run_id@,
        query.binds@[1] matches Some(bind) && bind@ == description@,
{
    query_with_two(UPSERT_DESCRIPTION, run_id, description)
}

/// The statement that reads what a run is described by.
pub fn description_for_run(run_id: &str) -> (query: Query)
    ensures
        query.says(SELECT_DESCRIPTION, seq![Some(run_id@)]),
        query.sql@ == SELECT_DESCRIPTION@,
        query.binds@.len() == 1,
        query.binds@[0] matches Some(bind) && bind@ == run_id@,
{
    query_with_one(SELECT_DESCRIPTION, run_id)
}

/// The statement that lists the edges of a run.
pub fn edges_for_run(run_id: &str) -> (query: Query)
    ensures
        query.says(SELECT_EDGES, seq![Some(run_id@)]),
        query.sql@ == SELECT_EDGES@,
        query.binds@.len() == 1,
        query.binds@[0] matches Some(bind) && bind@ == run_id@,
{
    query_with_one(SELECT_EDGES, run_id)
}

/// The statement that lists the edges of all runs.
pub fn edges_of_all_runs() -> (query: Query)
    ensures
        query.says(SELECT_EDGES_OF_ALL_RUNS, Seq::empty()),
        query.sql@ == SELECT_EDGES_OF_ALL_RUNS@,
        query.binds@.len() == 0,
{
    query_with_none(SELECT_EDGES_OF_ALL_RUNS)
}

/// The statement that lists the task executions of a run.
pub fn task_runs_for_run(run_id: &str) -> (query: Query)
    ensures
        query.says(SELECT_TASK_RUNS, seq![Some(run_id@)]),
        query.sql@ == SELECT_TASK_RUNS@,
        query.binds@.len() == 1,
        query.binds@[0] matches Some(bind) && bind@ == run_id@,
{
    query_with_one(SELECT_TASK_RUNS, run_id)
}

/// The statement that lists the task executions of all runs.
pub fn task_runs_of_all_runs() -> (query: Query)
    ensures
        query.says(SELECT_TASK_RUNS_OF_ALL_RUNS, Seq::empty()),
        query.sql@ == SELECT_TASK_RUNS_OF_ALL_RUNS@,
        query.binds@.len() == 0,
{
    query_with_none(SELECT_TASK_RUNS_OF_ALL_RUNS)
}

/// The values bound for a record are, by place, what it says for the columns
/// `run_id`, `task_id`, `state`, `started_at`, `finished_at` and `output_json`. A
/// row of these values holds the record again where the texts of its instants
/// read as the instants.
pub proof fn bound_values_form_the_record(record: TaskRunView)
    ensures
        ({
            let binds = record.row().columns();
            &&& binds.len() == 6
            &&& binds[0] == Some(record.run_id)
            &&& binds[1] == Some(record.task_id)
            &&& binds[2] == Some(record.state)
            &&& binds[3] == Some(rfc3339_text(record.started_at.0, record.started_at.1))
            &&& record.finished_at is None ==> binds[4] is None
            &&& record.finished_at matches Some(instant) ==> binds[4] == Some(
                rfc3339_text(instant.0, instant.1),
            )
            &&& binds[5] == record.output_json
            &&& rfc3339_instant(binds[3]->Some_0) == Some(record.started_at) && (
            record.finished_at matches Some(instant) ==> rfc3339_instant(binds[4]->Some_0) == Some(
                instant,
            )) ==> (TaskRunRowView {
                run_id: binds[0]->Some_0,
                task_id: binds[1]->Some_0,
                state: binds[2]->Some_0,
                started_at: binds[3]->Some_0,
                finished_at: binds[4],
                output_json: binds[5],
            }).record() == Some(record)
        }),
{
}

/// The statements, word for word.
pub proof fn statements_in_full()
    ensures
        CREATE_TASK_RUNS@ == "CREATE TABLE IF NOT EXISTS task_runs (run_id TEXT NOT NULL, task_id TEXT NOT NULL, state TEXT NOT NULL, started_at TEXT NOT NULL, finished_at TEXT, output_json TEXT, PRIMARY KEY (run_id, task_id))"@,
        CREATE_LINEAGE_EDGES@ == "CREATE TABLE IF NOT EXISTS lineage_edges (run_id TEXT NOT NULL, upstream_id TEXT NOT NULL, downstream_id TEXT NOT NULL, recorded_at TEXT NOT NULL, PRIMARY KEY (run_id, upstream_id, downstream_id))"@,
        CREATE_RUN_DESCRIPTIONS@ == "CREATE TABLE IF NOT EXISTS run_descriptions (run_id TEXT NOT NULL, description TEXT NOT NULL, PRIMARY KEY (run_id))"@,
        UPSERT_TASK_RUN@ == "INSERT INTO task_runs (run_id, task_id, state, started_at, finished_at, output_json) VALUES (?, ?, ?, ?, ?, ?) ON CONFLICT(run_id, task_id) DO UPDATE SET state = excluded.state, finished_at = excluded.finished_at, output_json = excluded.output_json"@,
        INSERT_EDGE@ == "INSERT OR IGNORE INTO lineage_edges (run_id, upstream_id, downstream_id, recorded_at) VALUES (?, ?, ?, ?)"@,
        UPSERT_DESCRIPTION@ == "INSERT INTO run_descriptions (run_id, description) VALUES (?, ?) ON CONFLICT(run_id) DO UPDATE SET description = excluded.description"@,
        COUNT_RUN_EDGES@ == "SELECT COUNT(*) AS n FROM lineage_edges WHERE run_id = ?"@,
        COUNT_EDGES@ == "SELECT COUNT(*) AS n FROM lineage_edges"@,
        SELECT_UPSTREAM@ == "SELECT upstream_id FROM lineage_edges WHERE run_id = ? AND downstream_id = ? ORDER BY upstream_id"@,
        SELECT_UPSTREAM_OF_ALL_RUNS@ == "SELECT DISTINCT upstream_id FROM lineage_edges WHERE downstream_id = ? ORDER BY upstream_id"@,
        SELECT_DOWNSTREAM@ == "SELECT downstream_id FROM lineage_edges WHERE run_id = ? AND upstream_id = ? ORDER BY downstream_id"@,
        SELECT_DOWNSTREAM_OF_ALL_RUNS@ == "SELECT DISTINCT downstream_id FROM lineage_edges WHERE upstream_id = ? ORDER BY downstream_id"@,
        SELECT_RECORDED@ == "SELECT EXISTS (SELECT 1 FROM task_runs WHERE task_id = ?1) OR EXISTS (SELECT 1 FROM lineage_edges WHERE upstream_id = ?1 OR downstream_id = ?1) AS n"@,
        SELECT_EDGES@ == "SELECT run_id, upstream_id, downstream_id, recorded_at FROM lineage_edges WHERE run_id = ? ORDER BY upstream_id, downstream_id"@,
        SELECT_TASK_RUNS@ == "SELECT run_id, task_id, state, started_at, finished_at, output_json FROM task_runs WHERE run_id = ? ORDER BY task_id"@,
        SELECT_EDGES_OF_ALL_RUNS@ == "SELECT run_id, upstream_id, downstream_id, MIN(recorded_at) AS recorded_at FROM lineage_edges GROUP BY upstream_id, downstream_id ORDER BY upstream_id, downstream_id"@,
        SELECT_TASK_RUNS_OF_ALL_RUNS@ == "SELECT run_id, task_id, state, started_at, finished_at, output_json FROM task_runs ORDER BY task_id, run_id"@,
        SELECT_DESCRIPTION@ == "SELECT description FROM run_descriptions WHERE run_id = ?"@,
{
}

} // verus!
