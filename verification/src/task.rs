//! What tasks hand to each other.
use vstd::hash_map::StringHashMap;
use vstd::prelude::*;

use crate::json::{json_string, json_strings_differ, Json};
use crate::text::{signed_decimal, signed_decimals_differ};

verus! {

#[verifier::external_type_specification]
#[verifier::external_body]
pub struct ExPathBuf(std::path::PathBuf);

/// The output of a task.
#[derive(Debug, PartialEq, Eq)]
pub enum TaskOutput {
    /// No value: the task works by its effects.
    Unit,
    /// A single integer, such as a row count.
    Int(i64),
    /// Text: file paths, identifiers, one-line summaries.
    Text(String),
    /// Nested JSON.
    Json(Json),
}

/// What a [`TaskOutput`] says.
pub enum TaskOutputView {
    Unit,
    Int(int),
    Text(Seq<char>),
    Json(Seq<char>),
}

impl TaskOutputView {
    /// The JSON text for the output.
    pub open spec fn json(self) -> Seq<char> {
        match self {
            TaskOutputView::Unit => "null"@,
            TaskOutputView::Int(n) => signed_decimal(n),
            TaskOutputView::Text(text) => json_string(text),
            TaskOutputView::Json(json) => json,
        }
    }
}

impl View for TaskOutput {
    type V = TaskOutputView;

    open spec fn view(&self) -> TaskOutputView {
        match *self {
            TaskOutput::Unit => TaskOutputView::Unit,
            TaskOutput::Int(n) => TaskOutputView::Int(n as int),
            TaskOutput::Text(text) => TaskOutputView::Text(text@),
            TaskOutput::Json(json) => TaskOutputView::Json(json@),
        }
    }
}

impl Clone for TaskOutput {
    fn clone(&self) -> (copy: Self)
        ensures
            copy == *self,
    {
        match self {
            TaskOutput::Unit => TaskOutput::Unit,
            TaskOutput::Int(n) => TaskOutput::Int(*n),
            TaskOutput::Text(text) => TaskOutput::Text(text.clone()),
            TaskOutput::Json(json) => TaskOutput::Json(json.clone()),
        }
    }
}

impl TaskOutput {
    /// The output as JSON, whatever its kind.
    pub fn as_json(&self) -> (json: Json)
        ensures
            json@ == self@.json(),
            match *self {
                TaskOutput::Unit => json@ == "null"@,
                TaskOutput::Int(n) => json@ == signed_decimal(n as int),
                TaskOutput::Text(text) => json@ == json_string(text@),
                TaskOutput::Json(value) => json@ == value@,
            },
    {
        match self {
            TaskOutput::Unit => Json::null(),
            TaskOutput::Int(n) => Json::integer(*n),
            TaskOutput::Text(text) => Json::string(text.as_str()),
            TaskOutput::Json(json) => json.clone(),
        }
    }
}

/// The JSON of an output tells what it holds: none is `null`, an integer its
/// decimal, a text the JSON string of it, and JSON is written as it is.
pub proof fn output_json_by_kind(n: int, text: Seq<char>, json: Seq<char>)
    ensures
        TaskOutputView::Unit.json() == "null"@,
        TaskOutputView::Int(n).json() == signed_decimal(n),
        TaskOutputView::Text(text).json() == json_string(text),
        TaskOutputView::Json(json).json() == json,
{
}

/// Outputs of the same kind that are written as the same JSON are the same.
pub proof fn outputs_of_a_kind_differ_in_json(a: TaskOutputView, b: TaskOutputView)
    requires
        a.json() == b.json(),
        match a {
            TaskOutputView::Unit => b is Unit,
            TaskOutputView::Int(_) => b is Int,
            TaskOutputView::Text(_) => b is Text,
            TaskOutputView::Json(_) => b is Json,
        },
    ensures
        a == b,
{
    match (a, b) {
        (TaskOutputView::Int(m), TaskOutputView::Int(n)) => signed_decimals_differ(m, n),
        (TaskOutputView::Text(s), TaskOutputView::Text(t)) => json_strings_differ(s, t),
        _ => {},
    }
}

/// A task that hands on its own id.
#[derive(Debug, PartialEq, Eq)]
pub struct EchoTask {
    pub id: String,
}

impl Clone for EchoTask {
    fn clone(&self) -> (copy: Self)
        ensures
            copy == *self,
    {
        EchoTask { id: self.id.clone() }
    }
}

impl EchoTask {
    /// What the task gives whenever it is executed: its id.
    pub open spec fn gives(self) -> TaskOutputView {
        TaskOutputView::Text(self.id@)
    }

    /// What the task gives whenever it is executed: its id.
    pub fn output(&self) -> (output: TaskOutput)
        ensures
            output@ == self.gives(),
            output matches TaskOutput::Text(text) && text@ == self.id@,
    {
        TaskOutput::Text(self.id.clone())
    }
}

/// What every task of a run shares: the run id, the scratch directory and the
/// outputs published so far.
pub struct Context {
    /// Stable id of the run.
    pub run_id: String,
    /// Scratch directory of the run.
    pub scratch_dir: std::path::PathBuf,
    /// Outputs by the name they were published under.
    pub state: StringHashMap<TaskOutput>,
}

impl Context {
    /// A context in which nothing is published yet.
    pub fn new(run_id: String, scratch_dir: std::path::PathBuf) -> (context: Self)
        ensures
            context.run_id == run_id,
            context.scratch_dir == scratch_dir,
            context.state@ == Map::<Seq<char>, TaskOutput>::empty(),
    {
        Context { run_id, scratch_dir, state: StringHashMap::new() }
    }

    /// The output that was last published under `key`, if any.
    pub fn get(&self, key: &str) -> (output: Option<TaskOutput>)
        ensures
            output == (if self.state@.contains_key(key@) {
                Some(self.state@[key@])
            } else {
                None
            }),
    {
        match self.state.get(key) {
            Some(output) => Some(output.clone()),
            None => None,
        }
    }

    /// Publishes an output under `key`, in place of the one before.
    pub fn put(&mut self, key: String, value: TaskOutput)
        ensures
            final(self).state@ == old(self).state@.insert(key@, value),
            final(self).run_id == old(self).run_id,
            final(self).scratch_dir == old(self).scratch_dir,
    {
        self.state.insert(key, value);
    }
}

} // verus!
