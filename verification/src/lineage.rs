//! Lineage of runs: the records, and the rows they are stored in.
use vstd::prelude::*;

use crate::state::TaskState;
use crate::time::{rfc3339_instant, rfc3339_text, BadDate, Timestamp};

verus! {

/// Errors of the lineage store.
#[derive(Debug, PartialEq, Eq)]
pub enum LineageError {
    /// The task was never recorded.
    UnknownTask(String),
}

impl LineageError {
    /// The message for people.
    pub fn message(&self) -> (text: String)
        ensures
            self matches LineageError::UnknownTask(id) && text@ == "unknown task id: "@ + id@,
    {
        match self {
            LineageError::UnknownTask(id) => {
                let mut text = "unknown task id: ".to_owned();
                text.append(id.as_str());
                text
            },
        }
    }
}

/// The answer to a query about a task: the tasks found, or the error where the
/// task was never recorded.
pub fn settle_query(task_id: &str, recorded: bool, found: Vec<String>) -> (answer: Result<
    Vec<String>,
    LineageError,
>)
    ensures
        match answer {
            Ok(answered) => recorded && answered == found,
            Err(LineageError::UnknownTask(id)) => !recorded && id@ == task_id@,
        },
{
    if recorded {
        Ok(found)
    } else {
        Err(LineageError::UnknownTask(task_id.to_owned()))
    }
}

/// One recorded task execution.
#[derive(Debug, PartialEq, Eq)]
pub struct TaskRunRecord {
    pub run_id: String,
    pub task_id: String,
    pub state: String,
    pub started_at: Timestamp,
    pub finished_at: Option<Timestamp>,
    pub output_json: Option<String>,
}

/// One recorded edge from an upstream to a downstream task.
#[derive(Debug, PartialEq, Eq)]
pub struct LineageEdge {
    pub run_id: String,
    pub upstream_id: String,
    pub downstream_id: String,
    pub recorded_at: Timestamp,
}

/// A row of the table of task executions.
#[derive(Debug, PartialEq, Eq)]
pub struct TaskRunRow {
    pub run_id: String,
    pub task_id: String,
    pub state: String,
    pub started_at: String,
    pub finished_at: Option<String>,
    pub output_json: Option<String>,
}

/// A row of the table of edges.
#[derive(Debug, PartialEq, Eq)]
pub struct LineageEdgeRow {
    pub run_id: String,
    pub upstream_id: String,
    pub downstream_id: String,
    pub recorded_at: String,
}

/// What a [`TaskRunRecord`] says.
pub struct TaskRunView {
    pub run_id: Seq<char>,
    pub task_id: Seq<char>,
    pub state: Seq<char>,
    pub started_at: (int, int),
    pub finished_at: Option<(int, int)>,
    pub output_json: Option<Seq<char>>,
}

/// What a [`LineageEdge`] says.
pub struct LineageEdgeView {
    pub run_id: Seq<char>,
    pub upstream_id: Seq<char>,
    pub downstream_id: Seq<char>,
    pub recorded_at: (int, int),
}

/// What a [`TaskRunRow`] says.
pub struct TaskRunRowView {
    pub run_id: Seq<char>,
    pub task_id: Seq<char>,
    pub state: Seq<char>,
    pub started_at: Seq<char>,
    pub finished_at: Option<Seq<char>>,
    pub output_json: Option<Seq<char>>,
}

/// What a [`LineageEdgeRow`] says.
pub struct LineageEdgeRowView {
    pub run_id: Seq<char>,
    pub upstream_id: Seq<char>,
    pub downstream_id: Seq<char>,
    pub recorded_at: Seq<char>,
}

/// What an optional string says.
pub open spec fn optional_text(text: Option<String>) -> Option<Seq<char>> {
    match text {
        Some(text) => Some(text@),
        None => None,
    }
}

/// What an optional instant says.
pub open spec fn optional_parts(instant: Option<Timestamp>) -> Option<(int, int)> {
    match instant {
        Some(instant) => Some(instant.parts()),
        None => None,
    }
}

impl View for TaskRunRecord {
    type V = TaskRunView;

    open spec fn view(&self) -> TaskRunView {
        TaskRunView {
            run_id: self.run_id@,
            task_id: self.task_id@,
            state: self.state@,
            started_at: self.started_at.parts(),
            finished_at: optional_parts(self.finished_at),
            output_json: optional_text(self.output_json),
        }
    }
}

impl View for LineageEdge {
    type V = LineageEdgeView;

    open spec fn view(&self) -> LineageEdgeView {
        LineageEdgeView {
            run_id: self.run_id@,
            upstream_id: self.upstream_id@,
            downstream_id: self.downstream_id@,
            recorded_at: self.recorded_at.parts(),
        }
    }
}

impl View for TaskRunRow {
    type V = TaskRunRowView;

    open spec fn view(&self) -> TaskRunRowView {
        TaskRunRowView {
            run_id: self.run_id@,
            task_id: self.task_id@,
            state: self.state@,
            started_at: self.started_at@,
            finished_at: optional_text(self.finished_at),
            output_json: optional_text(self.output_json),
        }
    }
}

impl View for LineageEdgeRow {
    type V = LineageEdgeRowView;

    open spec fn view(&self) -> LineageEdgeRowView {
        LineageEdgeRowView {
            run_id: self.run_id@,
            upstream_id: self.upstream_id@,
            downstream_id: self.downstream_id@,
            recorded_at: self.recorded_at@,
        }
    }
}

impl TaskRunView {
    /// The row for the record: instants in the form of RFC 3339.
    pub open spec fn row(self) -> TaskRunRowView {
        TaskRunRowView {
            run_id: self.run_id,
            task_id: self.task_id,
            state: self.state,
            started_at: rfc3339_text(self.started_at.0, self.started_at.1),
            finished_at: match self.finished_at {
                Some(parts) => Some(rfc3339_text(parts.0, parts.1)),
                None => None,
            },
            output_json: self.output_json,
        }
    }
}

impl TaskRunRowView {
    /// The record that the row holds, if its instants are in the form of RFC
    /// 3339.
    pub open spec fn record(self) -> Option<TaskRunView> {
        let finished = match self.finished_at {
            Some(text) => match rfc3339_instant(text) {
                Some(parts) => Some(Some(parts)),
                None => None,
            },
            None => Some(None),
        };
        match (rfc3339_instant(self.started_at), finished) {
            (Some(started_at), Some(finished_at)) => Some(
                TaskRunView {
                    run_id: self.run_id,
                    task_id: self.task_id,
                    state: self.state,
                    started_at,
                    finished_at,
                    output_json: self.output_json,
                },
            ),
            _ => None,
        }
    }

    /// The date for which the row holds no record: the start where that cannot
    /// be read, the end otherwise.
    pub open spec fn unread_date(self) -> Seq<char> {
        if rfc3339_instant(self.started_at) is None {
            self.started_at
        } else {
            self.finished_at->Some_0
        }
    }

    /// The columns, in the order of the table.
    pub open spec fn columns(self) -> Seq<Option<Seq<char>>> {
        seq![
            Some(self.run_id),
            Some(self.task_id),
            Some(self.state),
            Some(self.started_at),
            self.finished_at,
            self.output_json,
        ]
    }
}

impl LineageEdgeRowView {
    /// The edge that the row holds, if its instant is in the form of RFC 3339.
    pub open spec fn edge(self) -> Option<LineageEdgeView> {
        match rfc3339_instant(self.recorded_at) {
            Some(recorded_at) => Some(
                LineageEdgeView {
                    run_id: self.run_id,
                    upstream_id: self.upstream_id,
                    downstream_id: self.downstream_id,
                    recorded_at,
                },
            ),
            None => None,
        }
    }

    /// The columns, in the order of the table.
    pub open spec fn columns(self) -> Seq<Option<Seq<char>>> {
        seq![
            Some(self.run_id),
            Some(self.upstream_id),
            Some(self.downstream_id),
            Some(self.recorded_at),
        ]
    }
}

fn clone_optional(text: &Option<String>) -> (copy: Option<String>)
    ensures
        copy == *text,
{
    match text {
        Some(text) => Some(text.clone()),
        None => None,
    }
}

impl TaskRunRecord {
    /// The instants are ones that `chrono` can hold.
    pub open spec fn wf(self) -> bool {
        self.started_at.wf() && (self.finished_at matches Some(finished) ==> finished.wf())
    }

    /// The years of the instants have four digits and no sign.
    pub open spec fn in_four_digit_years(self) -> bool {
        self.started_at.in_four_digit_year() && (self.finished_at matches Some(finished)
            ==> finished.in_four_digit_year())
    }

    /// The record of a task that has come into `state` at `now`; a task that has
    /// come to an end finished at that instant.
    pub fn for_state(
        run_id: &str,
        task_id: &str,
        state: TaskState,
        output_json: Option<String>,
        now: Timestamp,
    ) -> (record: TaskRunRecord)
        ensures
            record.run_id@ == run_id@,
            record.task_id@ == task_id@,
            record.state@ == state.label(),
            record.started_at == now,
            record.finished_at == (if state.finished() {
                Some(now)
            } else {
                None
            }),
            record.finished_at == (if state is Queued || state is Running {
                None
            } else {
                Some(now)
            }),
            record.output_json == output_json,
            now.wf() ==> record.wf(),
    {
        TaskRunRecord {
            run_id: run_id.to_owned(),
            task_id: task_id.to_owned(),
            state: state.to_string(),
            started_at: now,
            finished_at: if state.is_finished() {
                Some(now)
            } else {
                None
            },
            output_json,
        }
    }

    /// The row for the record. Where the years have four digits, the row holds
    /// just the record.
    pub fn to_row(&self) -> (row: TaskRunRow)
        requires
            self.wf(),
        ensures
            row@ == self@.row(),
            self.in_four_digit_years() ==> row@.record() == Some(self@),
            row.run_id@ == self.run_id@,
            row.task_id@ == self.task_id@,
            row.state@ == self.state@,
            row.started_at@ == rfc3339_text(
                self.started_at.seconds as int,
                self.started_at.nanos as int,
            ),
            self.started_at.in_four_digit_year() ==> rfc3339_instant(row.started_at@) == Some(
                self.started_at.parts(),
            ),
            match self.finished_at {
                Some(finished_at) => row.finished_at matches Some(text) && {
                    &&& text@ == rfc3339_text(finished_at.seconds as int, finished_at.nanos as int)
                    &&& finished_at.in_four_digit_year() ==> rfc3339_instant(text@) == Some(
                        finished_at.parts(),
                    )
                },
                None => row.finished_at is None,
            },
            row.output_json == self.output_json,
    {
        TaskRunRow {
            run_id: self.run_id.clone(),
            task_id: self.task_id.clone(),
            state: self.state.clone(),
            started_at: self.started_at.to_rfc3339(),
            finished_at: match &self.finished_at {
                Some(finished) => Some(finished.to_rfc3339()),
                None => None,
            },
            output_json: clone_optional(&self.output_json),
        }
    }

    /// The record that a row holds.
    pub fn from_row(row: &TaskRunRow) -> (read: Result<TaskRunRecord, BadDate>)
        ensures
            match read {
                Ok(record) => record.wf() && row@.record() == Some(record@),
                Err(bad) => {
                    &&& row@.record() is None
                    &&& bad.text@ == row@.unread_date()
                },
            },
            match read {
                Ok(record) => {
                    &&& record.run_id@ == row.run_id@
                    &&& record.task_id@ == row.task_id@
                    &&& record.state@ == row.state@
                    &&& rfc3339_instant(row.started_at@) == Some(record.started_at.parts())
                    &&& match row.finished_at {
                        Some(text) => record.finished_at matches Some(finished_at)
                            && rfc3339_instant(text@) == Some(finished_at.parts()),
                        None => record.finished_at is None,
                    }
                    &&& record.output_json == row.output_json
                },
                Err(bad) => rfc3339_instant(bad.text@) is None && if rfc3339_instant(
                    row.started_at@,
                ) is None {
                    bad.text@ == row.started_at@
                } else {
                    row.finished_at matches Some(text) && bad.text@ == text@
                },
            },
    {
        let started_at = match Timestamp::from_rfc3339(row.started_at.as_str()) {
            Ok(instant) => instant,
            Err(bad) => {
                return Err(bad);
            },
        };
        let finished_at = match &row.finished_at {
            Some(text) => match Timestamp::from_rfc3339(text.as_str()) {
                Ok(instant) => Some(instant),
                Err(bad) => {
                    return Err(bad);
                },
            },
            None => None,
        };
        Ok(
            TaskRunRecord {
                run_id: row.run_id.clone(),
                task_id: row.task_id.clone(),
                state: row.state.clone(),
                started_at,
                finished_at,
                output_json: clone_optional(&row.output_json),
            },
        )
    }
}

impl Clone for TaskRunRecord {
    fn clone(&self) -> (copy: Self)
        ensures
            copy == *self,
    {
        TaskRunRecord {
            run_id: self.run_id.clone(),
            task_id: self.task_id.clone(),
            state: self.state.clone(),
            started_at: self.started_at,
            finished_at: self.finished_at,
            output_json: clone_optional(&self.output_json),
        }
    }
}

impl Clone for LineageEdge {
    fn clone(&self) -> (copy: Self)
        ensures
            copy == *self,
    {
        LineageEdge {
            run_id: self.run_id.clone(),
            upstream_id: self.upstream_id.clone(),
            downstream_id: self.downstream_id.clone(),
            recorded_at: self.recorded_at,
        }
    }
}

impl LineageEdge {
    /// The row for the edge. Where the year has four digits, the row holds just
    /// the edge.
    pub fn to_row(&self) -> (row: LineageEdgeRow)
        requires
            self.recorded_at.wf(),
        ensures
            row.run_id == self.run_id,
            row.upstream_id == self.upstream_id,
            row.downstream_id == self.downstream_id,
            row.recorded_at@ == rfc3339_text(self@.recorded_at.0, self@.recorded_at.1),
            self.recorded_at.in_four_digit_year() ==> row@.edge() == Some(self@),
            row.recorded_at@ == rfc3339_text(
                self.recorded_at.seconds as int,
                self.recorded_at.nanos as int,
            ),
    {
        LineageEdgeRow {
            run_id: self.run_id.clone(),
            upstream_id: self.upstream_id.clone(),
            downstream_id: self.downstream_id.clone(),
            recorded_at: self.recorded_at.to_rfc3339(),
        }
    }

    /// The edge that a row holds.
    pub fn from_row(row: &LineageEdgeRow) -> (read: Result<LineageEdge, BadDate>)
        ensures
            match read {
                Ok(edge) => edge.recorded_at.wf() && row@.edge() == Some(edge@),
                Err(bad) => row@.edge() is None && bad.text@ == row@.recorded_at,
            },
            match read {
                Ok(edge) => {
                    &&& edge.run_id@ == row.run_id@
                    &&& edge.upstream_id@ == row.upstream_id@
                    &&& edge.downstream_id@ == row.downstream_id@
                    &&& rfc3339_instant(row.recorded_at@) == Some(edge.recorded_at.parts())
                },
                Err(bad) => bad.text@ == row.recorded_at@ && rfc3339_instant(bad.text@) is None,
            },
    {
        match Timestamp::from_rfc3339(row.recorded_at.as_str()) {
            Ok(recorded_at) => Ok(
                LineageEdge {
                    run_id: row.run_id.clone(),
                    upstream_id: row.upstream_id.clone(),
                    downstream_id: row.downstream_id.clone(),
                    recorded_at,
                },
            ),
            Err(bad) => Err(bad),
        }
    }
}

/// Reads rows of edges, in their order; the first that cannot be read is the
/// error.
pub fn read_edges(rows: &Vec<LineageEdgeRow>) -> (read: Result<Vec<LineageEdge>, BadDate>)
    ensures
        match read {
            Ok(edges) => {
                &&& edges@.len() == rows@.len()
                &&& forall|k: int|
                    0 <= k < rows@.len() ==> (#[trigger] rows@[k])@.edge() == Some(edges@[k]@)
                &&& forall|k: int|
                    0 <= k < rows@.len() ==> {
                        &&& (#[trigger] edges@[k]).run_id@ == rows@[k].run_id@
                        &&& edges@[k].upstream_id@ == rows@[k].upstream_id@
                        &&& edges@[k].downstream_id@ == rows@[k].downstream_id@
                        &&& rfc3339_instant(rows@[k].recorded_at@) == Some(
                            edges@[k].recorded_at.parts(),
                        )
                    }
            },
            Err(bad) => exists|k: int|
                {
                    &&& 0 <= k < rows@.len()
                    &&& (#[trigger] rows@[k])@.edge() is None
                    &&& bad.text@ == rows@[k].recorded_at@
                    &&& rfc3339_instant(rows@[k].recorded_at@) is None
                    &&& forall|j: int|
                        0 <= j < k ==> (#[trigger] rows@[j])@.edge() is Some && rfc3339_instant(
                            rows@[j].recorded_at@,
                        ) is Some
                },
        },
{
    let mut edges: Vec<LineageEdge> = Vec::new();
    for k in 0..rows.len()
        invariant
            edges@.len() == k,
            forall|j: int|
                0 <= j < k ==> (#[trigger] rows@[j])@.edge() == Some(edges@[j]@),
            forall|j: int|
                0 <= j < k ==> {
                    &&& (#[trigger] edges@[j]).run_id@ == rows@[j].run_id@
                    &&& edges@[j].upstream_id@ == rows@[j].upstream_id@
                    &&& edges@[j].downstream_id@ == rows@[j].downstream_id@
                    &&& rfc3339_instant(rows@[j].recorded_at@) == Some(
                        edges@[j].recorded_at.parts(),
                    )
                },
    {
        match LineageEdge::from_row(&rows[k]) {
            Ok(edge) => edges.push(edge),
            Err(bad) => {
                return Err(bad);
            },
        }
    }
    Ok(edges)
}

/// Reads rows of task executions, in their order; the first that cannot be read
/// is the error.
pub fn read_task_runs(rows: &Vec<TaskRunRow>) -> (read: Result<Vec<TaskRunRecord>, BadDate>)
    ensures
        match read {
            Ok(records) => {
                &&& records@.len() == rows@.len()
                &&& forall|k: int|
                    0 <= k < rows@.len() ==> (#[trigger] rows@[k])@.record() == Some(records@[k]@)
                &&& forall|k: int|
                    0 <= k < rows@.len() ==> {
                        &&& (#[trigger] records@[k]).run_id@ == rows@[k].run_id@
                        &&& records@[k].task_id@ == rows@[k].task_id@
                        &&& records@[k].state@ == rows@[k].state@
                        &&& rfc3339_instant(rows@[k].started_at@) == Some(
                            records@[k].started_at.parts(),
                        )
                        &&& match rows@[k].finished_at {
                            Some(text) => records@[k].finished_at matches Some(finished_at)
                                && rfc3339_instant(text@) == Some(finished_at.parts()),
                            None => records@[k].finished_at is None,
                        }
                        &&& records@[k].output_json == rows@[k].output_json
                    }
            },
            Err(bad) => exists|k: int|
                {
                    &&& 0 <= k < rows@.len()
                    &&& (#[trigger] rows@[k])@.record() is None
                    &&& bad.text@ == rows@[k]@.unread_date()
                    &&& rfc3339_instant(bad.text@) is None
                    &&& bad.text@ == rows@[k].started_at@ || (rows@[k].finished_at matches Some(
                        text,
                    ) && bad.text@ == text@ && rfc3339_instant(rows@[k].started_at@) is Some)
                    &&& forall|j: int|
                        0 <= j < k ==> {
                            &&& (#[trigger] rows@[j])@.record() is Some
                            &&& rfc3339_instant(rows@[j].started_at@) is Some
                            &&& rows@[j].finished_at matches Some(text) ==> rfc3339_instant(text@)
                                is Some
                        }
                },
        },
{
    let mut records: Vec<TaskRunRecord> = Vec::new();
    for k in 0..rows.len()
        invariant
            records@.len() == k,
            forall|j: int|
                0 <= j < k ==> (#[trigger] rows@[j])@.record() == Some(records@[j]@),
            forall|j: int|
                0 <= j < k ==> {
                    &&& (#[trigger] records@[j]).run_id@ == rows@[j].run_id@
                    &&& records@[j].task_id@ == rows@[j].task_id@
                    &&& records@[j].state@ == rows@[j].state@
                    &&& rfc3339_instant(rows@[j].started_at@) == Some(
                        records@[j].started_at.parts(),
                    )
                    &&& match rows@[j].finished_at {
                        Some(text) => records@[j].finished_at matches Some(finished_at)
                            && rfc3339_instant(text@) == Some(finished_at.parts()),
                        None => records@[j].finished_at is None,
                    }
                    &&& records@[j].output_json == rows@[j].output_json
                },
    {
        match TaskRunRecord::from_row(&rows[k]) {
            Ok(record) => records.push(record),
            Err(bad) => {
                return Err(bad);
            },
        }
    }
    Ok(records)
}

} // verus!
