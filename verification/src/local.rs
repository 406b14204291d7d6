//! Running a DAG task by task, in topological order, and stopping at the first
//! failure.
use vstd::prelude::*;

use crate::dag::{Dag, DagError};
use crate::digraph::{positions, topo_result, NodeIndex};
use crate::json::{
    field_texts, json_object, json_string, json_strings_differ, plain_text_is_only_quoted,
    small_objects_in_full, Json,
};
use crate::lineage::optional_text;
use crate::ordered::OrderedMap;
use crate::report::{every_task_succeeded, json_texts, lemma_json_texts_grow, RunReport};
use crate::spec::texts;
use crate::state::TaskState;
use crate::task::{Context, TaskOutput, TaskOutputView};
use crate::text::signed_decimal;
use crate::topology::{edges_in_range, is_topological_order, on_cycle};

verus! {

/// A state that a task has come into, to be recorded.
#[derive(Debug)]
pub struct StateChange {
    pub task_id: String,
    pub state: TaskState,
    pub output_json: Option<String>,
}

/// What a [`StateChange`] says.
pub struct StateChangeView {
    pub task_id: Seq<char>,
    pub state: TaskState,
    pub output_json: Option<Seq<char>>,
}

impl View for StateChange {
    type V = StateChangeView;

    open spec fn view(&self) -> StateChangeView {
        StateChangeView {
            task_id: self.task_id@,
            state: self.state,
            output_json: optional_text(self.output_json),
        }
    }
}

/// What changes say.
pub open spec fn change_views(changes: Seq<StateChange>) -> Seq<StateChangeView> {
    changes.map_values(|change: StateChange| change@)
}

/// What a change says is what it holds.
pub proof fn change_says_what_it_holds(change: StateChange)
    ensures
        change@.task_id == change.task_id@,
        change@.state == change.state,
        change.output_json is None ==> change@.output_json is None,
        change.output_json matches Some(json) ==> change@.output_json == Some(json@),
{
}

/// What is to be done next.
#[derive(Debug)]
pub enum Step {
    /// Record that the task runs, execute it and hand in how it went.
    Execute { node: NodeIndex, change: StateChange },
    /// Record that the task is skipped.
    Skip { change: StateChange },
    /// Every task has been taken.
    Done,
}

/// How the execution of a task went.
pub enum Outcome {
    Success(TaskOutputView),
    Failure(Seq<char>),
}

impl Outcome {
    /// The state in which the task ends.
    pub open spec fn state(self) -> TaskState {
        match self {
            Outcome::Success(_) => TaskState::Succeeded,
            Outcome::Failure(_) => TaskState::Failed,
        }
    }

    /// The JSON that is kept of the task.
    pub open spec fn json(self) -> Seq<char> {
        match self {
            Outcome::Success(output) => output.json(),
            Outcome::Failure(message) => error_json(message),
        }
    }
}

/// The JSON for an error message.
pub open spec fn error_json(message: Seq<char>) -> Seq<char> {
    json_object(seq![("error"@, json_string(message))])
}

/// How an execution went, as it is handed in.
pub open spec fn outcome_view(outcome: Result<TaskOutput, String>) -> Outcome {
    match outcome {
        Ok(output) => Outcome::Success(output@),
        Err(message) => Outcome::Failure(message@),
    }
}

/// How far a run has come.
pub struct LocalRunView {
    pub run_id: Seq<char>,
    /// The edges between the nodes of the DAG.
    pub edges: Seq<(int, int)>,
    /// The nodes, in the order in which they are taken.
    pub order: Seq<int>,
    /// The task ids, in the same order.
    pub names: Seq<Seq<char>>,
    /// How many tasks have been taken.
    pub taken: nat,
    /// How the executions went, in their order.
    pub outcomes: Seq<Outcome>,
    /// The task taken last is being executed.
    pub running: bool,
}

impl LocalRunView {
    /// A task has failed.
    pub open spec fn failed(self) -> bool {
        self.outcomes.len() > 0 && self.outcomes.last() is Failure
    }

    /// Tasks are taken in topological order, each is executed once the one
    /// before has ended well, and none after a failure.
    pub open spec fn wf(self) -> bool {
        &&& edges_in_range(self.order.len(), self.edges)
        &&& is_topological_order(self.order.len(), self.edges, self.order)
        &&& self.names.len() == self.order.len()
        &&& self.taken <= self.names.len()
        &&& forall|k: int|
            0 <= k < self.outcomes.len() - 1 ==> (#[trigger] self.outcomes[k]) is Success
        &&& if self.running {
            !self.failed() && self.taken == self.outcomes.len() + 1
        } else if self.failed() {
            self.taken >= self.outcomes.len()
        } else {
            self.taken == self.outcomes.len()
        }
    }

    /// The state of the `k`th task, once it has been taken.
    pub open spec fn state_of(self, k: int) -> TaskState {
        if k < self.outcomes.len() {
            self.outcomes[k].state()
        } else if self.running {
            TaskState::Running
        } else {
            TaskState::Skipped
        }
    }

    /// The states of the first `count` tasks, by their ids; of tasks with the
    /// same id that of the last.
    pub open spec fn states(self, count: nat) -> Map<Seq<char>, TaskState>
        decreases count,
    {
        if count == 0 {
            Map::empty()
        } else {
            self.states((count - 1) as nat).insert(
                self.names[count - 1],
                self.state_of(count - 1),
            )
        }
    }

    /// The JSON kept of the first `count` tasks, by their ids; of tasks with the
    /// same id that of the last.
    pub open spec fn outputs(self, count: nat) -> Map<Seq<char>, Seq<char>>
        decreases count,
    {
        if count == 0 {
            Map::empty()
        } else {
            self.outputs((count - 1) as nat).insert(
                self.names[count - 1],
                self.outcomes[count - 1].json(),
            )
        }
    }

    /// What the first `count` tasks published, by their ids; of tasks with the
    /// same id what the last did.
    pub open spec fn published(self, count: nat) -> Map<Seq<char>, TaskOutputView>
        decreases count,
    {
        if count == 0 {
            Map::empty()
        } else {
            let before = self.published((count - 1) as nat);
            match self.outcomes[count - 1] {
                Outcome::Success(output) => before.insert(self.names[count - 1], output),
                Outcome::Failure(_) => before,
            }
        }
    }

    /// Every task has been taken and none is being executed.
    pub open spec fn complete(self) -> bool {
        self.taken == self.names.len() && !self.running
    }
}

/// A context holds all that `published` tells.
pub open spec fn context_holds(
    context: Map<Seq<char>, TaskOutput>,
    published: Map<Seq<char>, TaskOutputView>,
) -> bool {
    forall|key: Seq<char>| #[trigger]
        published.contains_key(key) ==> context.contains_key(key) && context[key]@
            == published[key]
}

/// The names of the ends of edges.
pub open spec fn named_edges(edges: Seq<(int, int)>, ids: Seq<Seq<char>>) -> Seq<
    (Seq<char>, Seq<char>),
> {
    edges.map_values(|edge: (int, int)| (ids[edge.0], ids[edge.1]))
}

/// The names of nodes.
pub open spec fn named_nodes(order: Seq<int>, ids: Seq<Seq<char>>) -> Seq<Seq<char>> {
    order.map_values(|node: int| ids[node])
}

/// What pairs of strings say.
pub open spec fn pair_texts(pairs: Seq<(String, String)>) -> Seq<(Seq<char>, Seq<char>)> {
    pairs.map_values(|pair: (String, String)| (pair.0@, pair.1@))
}

/// A run of a DAG in progress.
pub struct LocalRun {
    run_id: String,
    lineage: Vec<(String, String)>,
    order: Vec<NodeIndex>,
    names: Vec<String>,
    taken: usize,
    running: bool,
    failure_seen: bool,
    task_states: OrderedMap<TaskState>,
    task_outputs: OrderedMap<Json>,
    edges: Ghost<Seq<(int, int)>>,
    outcomes: Ghost<Seq<Outcome>>,
}

impl View for LocalRun {
    type V = LocalRunView;

    closed spec fn view(&self) -> LocalRunView {
        LocalRunView {
            run_id: self.run_id@,
            edges: self.edges@,
            order: positions(self.order@),
            names: texts(self.names@),
            taken: self.taken as nat,
            outcomes: self.outcomes@,
            running: self.running,
        }
    }
}

/// The JSON for an error message is an object with the message under `error`.
pub proof fn error_object_in_full(message: Seq<char>)
    ensures
        error_json(message) == "{\"error\":"@ + json_string(message) + "}"@,
{
    reveal_strlit("error");
    reveal_strlit("{\"error\":");
    reveal_strlit("{");
    reveal_strlit(":");
    plain_text_is_only_quoted("error"@);
    small_objects_in_full("error"@, json_string(message), ""@, ""@);
    assert("{"@ + json_string("error"@) + ":"@ =~= "{\"error\":"@);
}

/// The JSON for an error message.
pub fn error_output(message: &str) -> (json: Json)
    ensures
        json@ == error_json(message@),
        json@ == "{\"error\":"@ + json_string(message@) + "}"@,
{
    proof {
        error_object_in_full(message@);
    }
    let mut fields: Vec<(String, Json)> = Vec::new();
    fields.push(("error".to_owned(), Json::string(message)));
    assert(field_texts(fields@) =~= seq![("error"@, json_string(message@))]);
    Json::object(&fields)
}

/// The states of the first tasks hang on nothing that comes later.
proof fn lemma_states_agree(a: LocalRunView, b: LocalRunView, count: nat)
    requires
        a.names == b.names,
        count <= a.names.len(),
        forall|k: int| 0 <= k < count ==> #[trigger] a.state_of(k) == b.state_of(k),
    ensures
        a.states(count) == b.states(count),
    decreases count,
{
    if count > 0 {
        lemma_states_agree(a, b, (count - 1) as nat);
        assert(a.state_of(count - 1) == b.state_of(count - 1));
    }
}

/// What is kept of the first tasks hangs on nothing that comes later.
proof fn lemma_outputs_agree(a: LocalRunView, b: LocalRunView, count: nat)
    requires
        a.names == b.names,
        count <= a.names.len(),
        forall|k: int| 0 <= k < count ==> #[trigger] a.outcomes[k] == b.outcomes[k],
    ensures
        a.outputs(count) == b.outputs(count),
    decreases count,
{
    if count > 0 {
        lemma_outputs_agree(a, b, (count - 1) as nat);
        assert(a.outcomes[count - 1] == b.outcomes[count - 1]);
    }
}

/// What the first tasks published hangs on nothing that comes later.
proof fn lemma_published_agree(a: LocalRunView, b: LocalRunView, count: nat)
    requires
        a.names == b.names,
        forall|k: int| 0 <= k < count ==> #[trigger] a.outcomes[k] == b.outcomes[k],
    ensures
        a.published(count) == b.published(count),
    decreases count,
{
    if count > 0 {
        lemma_published_agree(a, b, (count - 1) as nat);
        assert(a.outcomes[count - 1] == b.outcomes[count - 1]);
    }
}

impl LocalRun {
    /// The states and outputs kept are those of the tasks taken.
    pub closed spec fn results_kept(self) -> bool {
        &&& self.failure_seen == self@.failed()
        &&& self.task_states.wf()
        &&& self.task_outputs.wf()
        &&& self.task_states@ == self@.states(self@.taken)
        &&& json_texts(self.task_outputs@) == self@.outputs(self@.outcomes.len())
    }

    /// What every run keeps.
    pub open spec fn wf(self) -> bool {
        self@.wf() && self.results_kept()
    }

    /// The edges to be recorded, by the ids of their ends.
    pub closed spec fn lineage_edges(self) -> Seq<(Seq<char>, Seq<char>)> {
        pair_texts(self.lineage@)
    }

    /// Plans the run of a DAG whose nodes have the task ids `ids`, or finds the
    /// cycle that stands against it.
    pub fn new<T>(run_id: &str, dag: &Dag<T>, ids: &Vec<String>) -> (planned: Result<
        LocalRun,
        DagError,
    >)
        requires
            dag.wf(),
            ids@.len() == dag@.payloads.len(),
        ensures
            planned is Ok <==> dag@.acyclic(),
            match planned {
                Ok(run) => {
                    &&& run.wf()
                    &&& run@.run_id == run_id@
                    &&& run@.edges == dag@.edges
                    &&& is_topological_order(dag@.payloads.len(), dag@.edges, run@.order)
                    &&& topo_result(dag@.payloads.len(), dag@.edges) == Ok::<Seq<int>, int>(
                        run@.order,
                    )
                    &&& run@.names == named_nodes(run@.order, texts(ids@))
                    &&& run@.names.len() == ids@.len()
                    &&& forall|k: int|
                        0 <= k < ids@.len() ==> #[trigger] run@.names[k] == ids@[run@.order[k]]@
                    &&& run@.taken == 0
                    &&& run@.outcomes.len() == 0
                    &&& !run@.running
                    &&& run.lineage_edges() == named_edges(dag@.edges, texts(ids@))
                    &&& run.lineage_edges().len() == dag@.edges.len()
                    &&& forall|k: int|
                        0 <= k < dag@.edges.len() ==> #[trigger] run.lineage_edges()[k] == (
                            ids@[dag@.edges[k].0]@,
                            ids@[dag@.edges[k].1]@,
                        )
                },
                Err(DagError::Cycle(node)) => {
                    &&& dag@.has_node(node)
                    &&& on_cycle(dag@.edges, node.position())
                    &&& topo_result(dag@.payloads.len(), dag@.edges) == Err::<Seq<int>, int>(
                        node.position(),
                    )
                },
                Err(_) => false,
            },
    {
        match dag.cycle_check() {
            Ok(()) => {},
            Err(error) => {
                return Err(error);
            },
        }
        let order = match dag.topo_sort() {
            Ok(order) => order,
            Err(error) => {
                return Err(error);
            },
        };
        let ghost all = texts(ids@);
        let mut lineage: Vec<(String, String)> = Vec::new();
        let edges = dag.edges();
        for k in 0..edges.len()
            invariant
                dag.wf(),
                ids@.len() == dag@.payloads.len(),
                all == texts(ids@),
                edges@.len() == dag@.edges.len(),
                forall|j: int|
                    0 <= j < edges@.len() ==> dag@.edges[j] == (
                        (#[trigger] edges@[j]).0.position(),
                        edges@[j].1.position(),
                    ),
                lineage@.len() == k,
                forall|j: int|
                    0 <= j < k ==> (
                        (#[trigger] lineage@[j]).0@,
                        lineage@[j].1@,
                    ) == (all[dag@.edges[j].0], all[dag@.edges[j].1]),
        {
            let (from, to) = edges[k];
            assert(dag@.edges[k as int] == (from.position(), to.position()));
            lineage.push((ids[from.0 as usize].clone(), ids[to.0 as usize].clone()));
        }
        let mut names: Vec<String> = Vec::new();
        for k in 0..order.len()
            invariant
                ids@.len() == dag@.payloads.len(),
                all == texts(ids@),
                is_topological_order(dag@.payloads.len(), dag@.edges, positions(order@)),
                names@.len() == k,
                forall|j: int|
                    0 <= j < k ==> (#[trigger] names@[j])@ == all[order@[j].position()],
        {
            let node = order[k];
            assert(positions(order@)[k as int] == node.position());
            names.push(ids[node.0 as usize].clone());
        }
        let run = LocalRun {
            run_id: run_id.to_owned(),
            lineage,
            order,
            names,
            taken: 0,
            running: false,
            failure_seen: false,
            task_states: OrderedMap::new(),
            task_outputs: OrderedMap::new(),
            edges: Ghost(dag@.edges),
            outcomes: Ghost(Seq::empty()),
        };
        proof {
            assert(run@.names =~= named_nodes(run@.order, all));
            assert(run.lineage_edges() =~= named_edges(dag@.edges, all));
            assert(json_texts(run.task_outputs@) =~= Map::empty());
        }
        Ok(run)
    }

    /// The edges to be recorded before the first task is taken, by the ids of
    /// their ends, in the order in which they were added to the DAG.
    pub fn lineage(&self) -> (edges: &Vec<(String, String)>)
        ensures
            pair_texts(edges@) == self.lineage_edges(),
            edges@.len() == self.lineage_edges().len(),
            forall|k: int|
                0 <= k < edges@.len() ==> self.lineage_edges()[k] == (
                    (#[trigger] edges@[k]).0@,
                    edges@[k].1@,
                ),
    {
        &self.lineage
    }

    /// Takes the next task: it is executed as long as none has failed, and
    /// skipped after that.
    pub fn next_task(&mut self) -> (step: Step)
        requires
            old(self).wf(),
            !old(self)@.running,
        ensures
            final(self).wf(),
            final(self)@.run_id == old(self)@.run_id,
            final(self)@.edges == old(self)@.edges,
            final(self)@.order == old(self)@.order,
            final(self)@.names == old(self)@.names,
            final(self)@.outcomes == old(self)@.outcomes,
            final(self).lineage_edges() == old(self).lineage_edges(),
            step is Done <==> old(self)@.taken == old(self)@.names.len(),
            step is Execute <==> old(self)@.taken < old(self)@.names.len() && forall|k: int|
                0 <= k < old(self)@.outcomes.len() ==> (
                #[trigger] old(self)@.outcomes[k]) is Success,
            match step {
                Step::Done => {
                    &&& old(self)@.complete()
                    &&& final(self)@ == old(self)@
                },
                Step::Skip { change } => {
                    &&& !old(self)@.complete()
                    &&& old(self)@.failed()
                    &&& final(self)@.taken == old(self)@.taken + 1
                    &&& !final(self)@.running
                    &&& change.task_id@ == old(self)@.names[old(self)@.taken as int]
                    &&& change.state is Skipped
                    &&& change.output_json is None
                },
                Step::Execute { node, change } => {
                    &&& !old(self)@.complete()
                    &&& !old(self)@.failed()
                    &&& final(self)@.taken == old(self)@.taken + 1
                    &&& final(self)@.running
                    &&& node.position() == old(self)@.order[old(self)@.taken as int]
                    &&& change.task_id@ == old(self)@.names[old(self)@.taken as int]
                    &&& change.state is Running
                    &&& change.output_json is None
                },
            },
    {
        let ghost before = self@;
        if self.taken == self.names.len() {
            return Step::Done;
        }
        let k: usize = self.taken;
        let task_id = self.names[k].clone();
        let state = if self.failure_seen {
            TaskState::Skipped
        } else {
            TaskState::Running
        };
        self.task_states.insert(task_id.clone(), state);
        self.taken = k + 1;
        self.running = !self.failure_seen;
        proof {
            let after = self@;
            assert(after.names[k as int] == task_id@);
            assert(after.state_of(k as int) == state);
            lemma_states_agree(before, after, k as nat);
            lemma_outputs_agree(before, after, after.outcomes.len());
        }
        let change = StateChange { task_id, state, output_json: None };
        if self.failure_seen {
            Step::Skip { change }
        } else {
            Step::Execute { node: self.order[k], change }
        }
    }

    /// Takes in how the execution of the task taken last went, publishes its
    /// output under its id, and gives the state to be recorded for it: the output
    /// as JSON, or the error message.
    pub fn finish_task(
        &mut self,
        context: &mut Context,
        outcome: &Result<TaskOutput, String>,
    ) -> (change: StateChange)
        requires
            old(self).wf(),
            old(self)@.running,
        ensures
            final(self).wf(),
            final(self)@ == (LocalRunView {
                outcomes: old(self)@.outcomes.push(outcome_view(*outcome)),
                running: false,
                ..old(self)@
            }),
            final(self).lineage_edges() == old(self).lineage_edges(),
            final(context).run_id == old(context).run_id,
            final(context).scratch_dir == old(context).scratch_dir,
            final(context).state@ == match *outcome {
                Ok(output) => old(context).state@.insert(
                    old(self)@.names[old(self)@.taken - 1],
                    output,
                ),
                Err(_) => old(context).state@,
            },
            context_holds(
                old(context).state@,
                old(self)@.published(old(self)@.outcomes.len()),
            ) ==> context_holds(
                final(context).state@,
                final(self)@.published(final(self)@.outcomes.len()),
            ),
            final(self)@.outcomes.len() == old(self)@.outcomes.len() + 1,
            final(self)@.outcomes.last() == match *outcome {
                Ok(TaskOutput::Unit) => Outcome::Success(TaskOutputView::Unit),
                Ok(TaskOutput::Int(n)) => Outcome::Success(TaskOutputView::Int(n as int)),
                Ok(TaskOutput::Text(text)) => Outcome::Success(TaskOutputView::Text(text@)),
                Ok(TaskOutput::Json(json)) => Outcome::Success(TaskOutputView::Json(json@)),
                Err(message) => Outcome::Failure(message@),
            },
            change.task_id@ == old(self)@.names[old(self)@.taken - 1],
            outcome is Ok ==> change.state is Succeeded,
            outcome is Err ==> change.state is Failed,
            change.output_json matches Some(json) && json@ == match *outcome {
                Ok(TaskOutput::Unit) => "null"@,
                Ok(TaskOutput::Int(n)) => signed_decimal(n as int),
                Ok(TaskOutput::Text(text)) => json_string(text@),
                Ok(TaskOutput::Json(json)) => json@,
                Err(message) => "{\"error\":"@ + json_string(message@) + "}"@,
            },
            change.state == outcome_view(*outcome).state(),
            change.output_json matches Some(json) && json@ == outcome_view(*outcome).json(),
    {
        let ghost before = self@;
        let ghost kept = self.task_outputs@;
        let k: usize = self.taken - 1;
        let task_id = self.names[k].clone();
        let (state, json) = match outcome {
            Ok(output) => {
                context.put(task_id.clone(), output.clone());
                (TaskState::Succeeded, output.as_json())
            },
            Err(message) => (TaskState::Failed, error_output(message.as_str())),
        };
        let text = json.text().to_owned();
        proof {
            lemma_json_texts_grow(kept, task_id@, json);
        }
        self.task_states.insert(task_id.clone(), state);
        self.task_outputs.insert(task_id.clone(), json);
        self.failure_seen = !matches!(state, TaskState::Succeeded);
        self.running = false;
        self.outcomes = Ghost(self.outcomes@.push(outcome_view(*outcome)));
        proof {
            let after = self@;
            assert(after.names[k as int] == task_id@);
            assert(after.outcomes[k as int] == outcome_view(*outcome));
            lemma_states_agree(before, after, k as nat);
            lemma_outputs_agree(before, after, k as nat);
            lemma_published_agree(before, after, k as nat);
            assert(before.states(k as nat + 1) == before.states(k as nat).insert(
                task_id@,
                TaskState::Running,
            ));
            assert(self.task_states@ =~= after.states(k as nat + 1));
        }
        StateChange { task_id, state, output_json: Some(text) }
    }

    /// The report, once every task has been taken.
    #[verifier::spinoff_prover]
    #[verifier::rlimit(40)]
    pub fn into_report(self) -> (report: RunReport)
        requires
            self.wf(),
            self@.complete(),
        ensures
            report.wf(),
            report.run_id@ == self@.run_id,
            report.task_states@ == self@.states(self@.names.len()),
            json_texts(report.task_outputs@) == self@.outputs(self@.outcomes.len()),
            texts(report.topo_order@) == self@.names,
            self@.names.no_duplicates() ==> forall|k: int|
                0 <= k < self@.outcomes.len() ==> report.task_outputs@.contains_key(
                    #[trigger] self@.names[k],
                ) && report.task_outputs@[self@.names[k]]@ == match self@.outcomes[k] {
                    Outcome::Success(TaskOutputView::Unit) => "null"@,
                    Outcome::Success(TaskOutputView::Int(n)) => signed_decimal(n),
                    Outcome::Success(TaskOutputView::Text(text)) => json_string(text),
                    Outcome::Success(TaskOutputView::Json(json)) => json,
                    Outcome::Failure(message) => "{\"error\":"@ + json_string(message) + "}"@,
                },
            self@.names.no_duplicates() ==> forall|k: int|
                0 <= k < self@.names.len() ==> report.task_states@.contains_key(
                    #[trigger] self@.names[k],
                ) && report.task_states@[self@.names[k]] == if k >= self@.outcomes.len() {
                    TaskState::Skipped
                } else if self@.outcomes[k] is Success {
                    TaskState::Succeeded
                } else {
                    TaskState::Failed
                },
            forall|id: Seq<char>| #[trigger]
                report.task_outputs@.contains_key(id) <==> self@.names.take(
                    self@.outcomes.len() as int,
                ).contains(id),
            forall|id: Seq<char>| #[trigger]
                report.task_states@.contains_key(id) <==> self@.names.contains(id),
    {
        proof {
            let run = self@;
            let count = run.outcomes.len();
            assert(json_texts(self.task_outputs@) == run.outputs(count));
            if run.names.no_duplicates() {
                assert forall|k: int| 0 <= k < count implies {
                    let kept = run.outputs(count);
                    kept.contains_key(#[trigger] run.names[k]) && kept[run.names[k]]
                        == match run.outcomes[k] {
                        Outcome::Success(TaskOutputView::Unit) => "null"@,
                        Outcome::Success(TaskOutputView::Int(n)) => signed_decimal(n),
                        Outcome::Success(TaskOutputView::Text(text)) => json_string(text),
                        Outcome::Success(TaskOutputView::Json(json)) => json,
                        Outcome::Failure(message) => "{\"error\":"@ + json_string(message) + "}"@,
                    }
                } by {
                    outputs_are_kept_as_json(run, count, k);
                }
                assert forall|k: int| 0 <= k < run.names.len() implies {
                    let states = run.states(run.names.len());
                    states.contains_key(#[trigger] run.names[k]) && states[run.names[k]]
                        == run.state_of(k)
                } by {
                    lemma_taken_names_have_states(run, run.names.len(), k);
                    let place = lemma_states_of_names(run, run.names.len(), run.names[k]);
                }
            }
            assert forall|id: Seq<char>| #[trigger]
                self.task_outputs@.contains_key(id) <==> run.names.take(count as int).contains(
                    id,
                ) by {
                let front = run.names.take(count as int);
                assert(json_texts(self.task_outputs@).contains_key(id)
                    <==> self.task_outputs@.contains_key(id));
                if run.outputs(count).contains_key(id) {
                    let place = lemma_outputs_of_names(run, count, id);
                    assert(front[place] == id);
                }
                if front.contains(id) {
                    let k = front.index_of(id);
                    lemma_executed_names_have_outputs(run, count, k);
                }
            }
            assert forall|id: Seq<char>| #[trigger]
                self.task_states@.contains_key(id) <==> run.names.contains(id) by {
                if run.states(run.names.len()).contains_key(id) {
                    let place = lemma_states_of_names(run, run.names.len(), id);
                }
                if run.names.contains(id) {
                    lemma_taken_names_have_states(run, run.names.len(), run.names.index_of(id));
                }
            }
        }
        RunReport {
            run_id: self.run_id,
            task_states: self.task_states,
            task_outputs: self.task_outputs,
            topo_order: self.names,
        }
    }
}

proof fn lemma_executed_names_have_outputs(run: LocalRunView, count: nat, k: int)
    requires
        0 <= k < count <= run.names.len(),
    ensures
        run.outputs(count).contains_key(run.names[k]),
    decreases count,
{
    if k < count - 1 {
        lemma_executed_names_have_outputs(run, (count - 1) as nat, k);
    }
}

/// What is kept of a task that gave an output is the JSON of that output, and of
/// a task that failed the message under `error`; of tasks with the same id it is
/// what the last left.
pub proof fn outputs_are_kept_as_json(run: LocalRunView, count: nat, k: int)
    requires
        0 <= k < count <= run.names.len(),
        forall|later: int|
            k < later < count ==> #[trigger] run.names[later] != run.names[k],
    ensures
        run.outputs(count).contains_key(run.names[k]),
        run.outputs(count)[run.names[k]] == match run.outcomes[k] {
            Outcome::Success(TaskOutputView::Unit) => "null"@,
            Outcome::Success(TaskOutputView::Int(n)) => signed_decimal(n),
            Outcome::Success(TaskOutputView::Text(text)) => json_string(text),
            Outcome::Success(TaskOutputView::Json(json)) => json,
            Outcome::Failure(message) => "{\"error\":"@ + json_string(message) + "}"@,
        },
    decreases count,
{
    if let Outcome::Failure(message) = run.outcomes[k] {
        error_object_in_full(message);
    }
    if k < count - 1 {
        assert(run.names[count - 1] != run.names[k]);
        outputs_are_kept_as_json(run, (count - 1) as nat, k);
    }
}

/// What a task gave is published under its id as it is, unless a later task has
/// the same id; a task that failed publishes nothing.
pub proof fn outputs_are_published(run: LocalRunView, count: nat, k: int)
    requires
        0 <= k < count <= run.names.len(),
        forall|later: int|
            k < later < count ==> #[trigger] run.names[later] != run.names[k],
    ensures
        run.outcomes[k] matches Outcome::Success(output) ==> run.published(count).contains_key(
            run.names[k],
        ) && run.published(count)[run.names[k]] == output,
        run.outcomes[k] is Failure && run.names.take(count as int).no_duplicates()
            ==> !run.published(count).contains_key(run.names[k]),
    decreases count,
{
    let before = (count - 1) as nat;
    if k < count - 1 {
        assert(run.names[count - 1] != run.names[k]);
        let front = run.names.take(count as int);
        let rest = run.names.take(before as int);
        if front.no_duplicates() {
            assert forall|i: int, j: int|
                0 <= i < rest.len() && 0 <= j < rest.len() && i != j implies rest[i]
                != rest[j] by {
                assert(front[i] == rest[i] && front[j] == rest[j]);
            }
        }
        outputs_are_published(run, before, k);
    } else if run.names.take(count as int).no_duplicates() && run.published(before).contains_key(
        run.names[k],
    ) {
        let place = lemma_published_names(run, before, run.names[k]);
        assert(run.names.take(count as int)[place] == run.names.take(count as int)[k]);
    }
}

proof fn lemma_published_names(run: LocalRunView, count: nat, name: Seq<char>) -> (place: int)
    requires
        count <= run.names.len(),
        run.published(count).contains_key(name),
    ensures
        0 <= place < count,
        run.names[place] == name,
    decreases count,
{
    if count == 0 || run.names[count - 1] == name {
        count - 1
    } else {
        lemma_published_names(run, (count - 1) as nat, name)
    }
}

/// A task that gave an output has succeeded, one that gave an error has failed,
/// and one that was taken and not executed has been skipped; of tasks with the
/// same id it is the state of the last.
pub proof fn states_follow_outcomes(run: LocalRunView, count: nat, k: int)
    requires
        0 <= k < count <= run.names.len(),
        !run.running,
        forall|later: int|
            k < later < count ==> #[trigger] run.names[later] != run.names[k],
    ensures
        run.states(count).contains_key(run.names[k]),
        run.states(count)[run.names[k]] == if k >= run.outcomes.len() {
            TaskState::Skipped
        } else if run.outcomes[k] is Success {
            TaskState::Succeeded
        } else {
            TaskState::Failed
        },
{
    lemma_taken_names_have_states(run, count, k);
    let place = lemma_states_of_names(run, count, run.names[k]);
}

/// Two tasks of a run that give different texts, under ids that no later task
/// has, leave different outputs.
pub proof fn different_texts_leave_different_outputs(
    run: LocalRunView,
    i: int,
    j: int,
    first: Seq<char>,
    second: Seq<char>,
)
    requires
        0 <= i < run.outcomes.len() <= run.names.len(),
        0 <= j < run.outcomes.len(),
        forall|later: int|
            i < later < run.outcomes.len() ==> #[trigger] run.names[later] != run.names[i],
        forall|later: int|
            j < later < run.outcomes.len() ==> #[trigger] run.names[later] != run.names[j],
        run.outcomes[i] == Outcome::Success(TaskOutputView::Text(first)),
        run.outcomes[j] == Outcome::Success(TaskOutputView::Text(second)),
        first != second,
    ensures
        run.outputs(run.outcomes.len())[run.names[i]] != run.outputs(
            run.outcomes.len(),
        )[run.names[j]],
{
    outputs_are_kept_as_json(run, run.outcomes.len(), i);
    outputs_are_kept_as_json(run, run.outcomes.len(), j);
    if json_string(first) == json_string(second) {
        json_strings_differ(first, second);
    }
}

/// A task is executed only after every task that it comes after has been
/// executed and has succeeded.
pub proof fn tasks_run_after_upstream_success(run: LocalRunView, k: int)
    requires
        run.wf(),
        run.running,
        0 <= k < run.order.len(),
        run.edges.contains((run.order[k], run.order[run.taken - 1])),
    ensures
        k < run.outcomes.len(),
        run.outcomes[k] is Success,
{
    assert(k < run.taken - 1);
    if k == run.outcomes.len() - 1 {
        assert(run.outcomes.last() is Success);
    }
}

/// The state kept for an id is that of the last task taken that has it.
proof fn lemma_states_of_names(run: LocalRunView, count: nat, name: Seq<char>) -> (place: int)
    requires
        count <= run.names.len(),
        run.states(count).contains_key(name),
    ensures
        0 <= place < count,
        run.names[place] == name,
        run.states(count)[name] == run.state_of(place),
        forall|later: int| place < later < count ==> #[trigger] run.names[later] != name,
    decreases count,
{
    if count == 0 || run.names[count - 1] == name {
        count - 1
    } else {
        lemma_states_of_names(run, (count - 1) as nat, name)
    }
}

proof fn lemma_taken_names_have_states(run: LocalRunView, count: nat, k: int)
    requires
        0 <= k < count <= run.names.len(),
    ensures
        run.states(count).contains_key(run.names[k]),
    decreases count,
{
    if k < count - 1 {
        lemma_taken_names_have_states(run, (count - 1) as nat, k);
    }
}

proof fn lemma_outputs_of_names(run: LocalRunView, count: nat, name: Seq<char>) -> (place: int)
    requires
        count <= run.names.len(),
        run.outputs(count).contains_key(name),
    ensures
        0 <= place < count,
        run.names[place] == name,
    decreases count,
{
    if count == 0 || run.names[count - 1] == name {
        count - 1
    } else {
        lemma_outputs_of_names(run, (count - 1) as nat, name)
    }
}

/// Where a task fails, those taken before it have succeeded, and those after it
/// are skipped and leave no output; where none fails, all have succeeded.
pub proof fn failure_stops_the_run(run: LocalRunView, k: int)
    requires
        run.wf(),
        run.complete(),
        run.names.no_duplicates(),
        0 <= k < run.names.len(),
    ensures
        ({
            let state = run.states(run.names.len())[run.names[k]];
            if !run.failed() || k < run.outcomes.len() - 1 {
                state is Succeeded
            } else if k == run.outcomes.len() - 1 {
                state is Failed
            } else {
                &&& state is Skipped
                &&& !run.outputs(run.outcomes.len()).contains_key(run.names[k])
            }
        }),
{
    let count = run.names.len();
    lemma_taken_names_have_states(run, count, k);
    let place = lemma_states_of_names(run, count, run.names[k]);
    assert(place == k);
    if k >= run.outcomes.len() && run.outputs(run.outcomes.len()).contains_key(run.names[k]) {
        let other = lemma_outputs_of_names(run, run.outcomes.len(), run.names[k]);
        assert(run.names[other] == run.names[k]);
    }
}

/// Every task of a run succeeds exactly where none fails.
pub proof fn run_succeeds_unless_a_task_fails(run: LocalRunView)
    requires
        run.wf(),
        run.complete(),
    ensures
        every_task_succeeded(run.states(run.names.len())) <==> !run.failed(),
{
    let count = run.names.len();
    let states = run.states(count);
    if run.failed() {
        let failing = run.outcomes.len() - 1;
        lemma_taken_names_have_states(run, count, failing);
        let place = lemma_states_of_names(run, count, run.names[failing]);
        assert(place >= failing);
        assert(!(states[run.names[failing]] is Succeeded));
    } else {
        assert forall|id: Seq<char>| #[trigger]
            states.contains_key(id) implies states[id] is Succeeded by {
            let place = lemma_states_of_names(run, count, id);
            assert(run.outcomes[place] is Success);
        }
    }
}

/// Where no two tasks have the same id, a run records as many edges as the DAG
/// has, all of them different.
pub proof fn recorded_edges_differ(edges: Seq<(int, int)>, ids: Seq<Seq<char>>)
    requires
        edges_in_range(ids.len(), edges),
        edges.no_duplicates(),
        ids.no_duplicates(),
    ensures
        named_edges(edges, ids).len() == edges.len(),
        named_edges(edges, ids).no_duplicates(),
{
    let named = named_edges(edges, ids);
    assert forall|i: int, j: int|
        0 <= i < named.len() && 0 <= j < named.len() && i != j implies named[i] != named[j] by {
        assert(edges[i] != edges[j]);
        assert(named[i] == (ids[edges[i].0], ids[edges[i].1]));
        assert(named[j] == (ids[edges[j].0], ids[edges[j].1]));
    }
}

/// Two runs of the same DAG take its tasks in the same order.
pub proof fn runs_of_a_dag_agree(
    nodes: nat,
    edges: Seq<(int, int)>,
    ids: Seq<Seq<char>>,
    first: LocalRunView,
    second: LocalRunView,
)
    requires
        topo_result(nodes, edges) == Ok::<Seq<int>, int>(first.order),
        topo_result(nodes, edges) == Ok::<Seq<int>, int>(second.order),
        first.names == named_nodes(first.order, ids),
        second.names == named_nodes(second.order, ids),
    ensures
        first.names == second.names,
{
}

} // verus!
