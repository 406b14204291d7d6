//! Running the resources of a `forjar.yaml` with the `forjar` program.
use std::str::FromStr;
use vstd::prelude::*;
use vstd::utf8::{decode_utf8, valid_utf8};

use crate::json::{
    field_names, field_texts, json_object, json_string, json_strings_differ,
    plain_text_is_only_quoted, small_objects_in_full, Json,
};
use crate::lineage::optional_text;
use crate::local::{
    change_views, error_json, error_object_in_full, error_output, pair_texts, StateChange,
    StateChangeView,
};
use crate::ordered::{is_increasing, OrderedMap};
use crate::report::{
    every_task_succeeded, json_texts, lemma_json_texts_grow, ReportView, RunReport,
};
use crate::resources::{
    dependency_pairs, has_key, order_failure, order_failure_message, ordered_ids, resource_ids,
    resource_tasks, same_names, topo_order_from_resources, ForjarResource, ForjarResourceView,
    ForjarYaml,
};
use crate::spec::{connected, texts};
use crate::state::{TaskState, UnknownState};
use crate::text::{
    lemma_first_letters_order, same_text, trim_text, trimmed_end, trimmed_start,
    trimming_takes_off_white_space,
};

verus! {

/// The text that `String::from_utf8_lossy` reads in bytes.
pub uninterp spec fn lossy_text(bytes: Seq<u8>) -> Seq<char>;

/// `String::from_utf8_lossy`: bytes that are UTF-8 are read as such; what is not
/// is replaced.
#[verifier::external_body]
fn read_lossy(bytes: &Vec<u8>) -> (text: String)
    ensures
        text@ == lossy_text(bytes@),
        valid_utf8(bytes@) ==> text@ == decode_utf8(bytes@),
{
    String::from_utf8_lossy(bytes).into_owned()
}

/// How a command ended.
#[derive(Debug)]
pub struct CommandReply {
    pub success: bool,
    /// How the exit status is shown.
    pub status: String,
    /// What the command wrote to standard error.
    pub stderr: Vec<u8>,
}

/// What a command wrote to standard error, as it is shown in messages.
pub open spec fn complaint(stderr: Seq<u8>) -> Seq<char> {
    trimmed_end(trimmed_start(lossy_text(stderr)))
}

/// The message where the program cannot be asked for its version.
pub open spec fn check_failure(bin: Seq<char>, status: Seq<char>, complaint: Seq<char>) -> Seq<
    char,
> {
    "`"@ + bin + " --version` exited "@ + status + ": "@ + complaint
}

/// The message where a command has failed.
pub open spec fn command_failure(command: Seq<char>, complaint: Seq<char>) -> Seq<char> {
    "forjar "@ + command + " failed: "@ + complaint
}

/// Writes the message where the program cannot be asked for its version.
pub fn check_failure_message(bin: &str, status: &str, complaint: &str) -> (text: String)
    ensures
        text@ == check_failure(bin@, status@, complaint@),
        text@ == "`"@ + bin@ + " --version` exited "@ + status@ + ": "@ + complaint@,
{
    let mut text = "`".to_owned();
    text.append(bin);
    text.append(" --version` exited ");
    text.append(status);
    text.append(": ");
    text.append(complaint);
    text
}

/// Writes the message where a command has failed.
pub fn command_failure_message(command: &str, complaint: &str) -> (text: String)
    ensures
        text@ == command_failure(command@, complaint@),
        text@ == "forjar "@ + command@ + " failed: "@ + complaint@,
{
    let mut text = "forjar ".to_owned();
    text.append(command);
    text.append(" failed: ");
    text.append(complaint);
    text
}

/// Says whether the program is there: it has told its version.
pub fn check_forjar_present(bin: &str, reply: &CommandReply) -> (present: Result<(), String>)
    ensures
        match present {
            Ok(()) => reply.success,
            Err(message) => {
                &&& !reply.success
                &&& message@ == check_failure(bin@, reply.status@, complaint(reply.stderr@))
            },
        },
        present is Ok <==> reply.success,
        present matches Err(message) ==> message@ == "`"@ + bin@ + " --version` exited "@
            + reply.status@ + ": "@ + complaint(reply.stderr@),
{
    if reply.success {
        Ok(())
    } else {
        let text = read_lossy(&reply.stderr);
        Err(check_failure_message(bin, reply.status.as_str(), trim_text(text.as_str())))
    }
}

/// The kind of a resource, for its output.
pub open spec fn kind(resource: ForjarResourceView) -> Seq<char> {
    match resource.resource_type {
        Some(kind) => kind,
        None => "unknown"@,
    }
}

/// The output of a resource.
pub open spec fn resource_json(id: Seq<char>, resource: ForjarResourceView) -> Seq<char> {
    json_object(seq![("kind"@, json_string(kind(resource))), ("task_id"@, json_string(id))])
}

/// The output of a resource is a JSON object with its type as the kind, or
/// `unknown` where it has none, and its id.
pub proof fn resource_object_in_full(id: Seq<char>, resource: ForjarResourceView)
    ensures
        resource.resource_type matches Some(kind) ==> resource_json(id, resource) == "{\"kind\":"@
            + json_string(kind) + ",\"task_id\":"@ + json_string(id) + "}"@,
        resource.resource_type is None ==> resource_json(id, resource)
            == "{\"kind\":\"unknown\",\"task_id\":"@ + json_string(id) + "}"@,
{
    reveal_strlit("kind");
    reveal_strlit("task_id");
    reveal_strlit("unknown");
    reveal_strlit("{");
    reveal_strlit(":");
    reveal_strlit(",");
    reveal_strlit("{\"kind\":");
    reveal_strlit(",\"task_id\":");
    reveal_strlit("{\"kind\":\"unknown\",\"task_id\":");
    plain_text_is_only_quoted("kind"@);
    plain_text_is_only_quoted("task_id"@);
    plain_text_is_only_quoted("unknown"@);
    assert("{"@ + json_string("kind"@) + ":"@ =~= "{\"kind\":"@);
    assert(","@ + json_string("task_id"@) + ":"@ =~= ",\"task_id\":"@);
    assert("{\"kind\":"@ + json_string("unknown"@) + ",\"task_id\":"@
        =~= "{\"kind\":\"unknown\",\"task_id\":"@);
    let told = match resource.resource_type {
        Some(kind) => json_string(kind),
        None => json_string("unknown"@),
    };
    small_objects_in_full("kind"@, told, "task_id"@, json_string(id));
    assert(resource_json(id, resource) =~= "{\"kind\":"@ + told + ",\"task_id\":"@ + json_string(id)
        + "}"@);
}

/// Resources that have different types have different outputs.
pub proof fn different_types_have_different_outputs(
    id: Seq<char>,
    some: ForjarResourceView,
    other: ForjarResourceView,
)
    requires
        some.resource_type is Some,
        other.resource_type is Some,
        resource_json(id, some) == resource_json(id, other),
    ensures
        some.resource_type == other.resource_type,
{
    resource_object_in_full(id, some);
    resource_object_in_full(id, other);
    let start = "{\"kind\":"@;
    let end = ",\"task_id\":"@ + json_string(id) + "}"@;
    let a = json_string(some.resource_type->Some_0);
    let b = json_string(other.resource_type->Some_0);
    let told = resource_json(id, some);
    assert(told =~= start + a + end);
    assert(told =~= start + b + end);
    assert(told.len() == start.len() + a.len() + end.len());
    assert(told.len() == start.len() + b.len() + end.len());
    assert(told.subrange(start.len() as int, (start.len() + a.len()) as int) =~= a);
    assert(told.subrange(start.len() as int, (start.len() + b.len()) as int) =~= b);
    json_strings_differ(some.resource_type->Some_0, other.resource_type->Some_0);
}

/// The output of a resource.
pub fn resource_output(id: &str, resource: &ForjarResource) -> (json: Json)
    ensures
        json@ == resource_json(id@, resource@),
        match resource.resource_type {
            Some(kind) => json@ == "{\"kind\":"@ + json_string(kind@) + ",\"task_id\":"@
                + json_string(id@) + "}"@,
            None => json@ == "{\"kind\":\"unknown\",\"task_id\":"@ + json_string(id@) + "}"@,
        },
{
    proof {
        resource_object_in_full(id@, resource@);
    }
    let kind = match &resource.resource_type {
        Some(kind) => kind.clone(),
        None => "unknown".to_owned(),
    };
    let mut fields: Vec<(String, Json)> = Vec::new();
    fields.push(("kind".to_owned(), Json::string(kind.as_str())));
    fields.push(("task_id".to_owned(), Json::string(id)));
    proof {
        reveal_strlit("kind");
        reveal_strlit("task_id");
        lemma_first_letters_order("kind"@, "task_id"@);
        assert(field_texts(fields@) =~= seq![
            ("kind"@, json_string(kind@)),
            ("task_id"@, json_string(id@)),
        ]);
        assert(is_increasing(field_names(fields@)));
    }
    Json::object(&fields)
}

/// How a resource fared, as the program tells it.
#[derive(Debug)]
pub struct ResourceResult {
    pub id: String,
    pub state: TaskState,
    pub output: Option<Json>,
}

/// What a [`ResourceResult`] says.
pub struct ResourceResultView {
    pub id: Seq<char>,
    pub state: TaskState,
    pub output: Option<Seq<char>>,
}

impl View for ResourceResult {
    type V = ResourceResultView;

    open spec fn view(&self) -> ResourceResultView {
        ResourceResultView {
            id: self.id@,
            state: self.state,
            output: match self.output {
                Some(json) => Some(json@),
                None => None,
            },
        }
    }
}

/// What results say.
pub open spec fn result_views(results: Seq<ResourceResult>) -> Seq<ResourceResultView> {
    results.map_values(|result: ResourceResult| result@)
}

/// The last result that there is on a resource.
pub open spec fn last_result(results: Seq<ResourceResultView>, id: Seq<char>) -> Option<
    ResourceResultView,
>
    decreases results.len(),
{
    if results.len() == 0 {
        None
    } else if results.last().id == id {
        Some(results.last())
    } else {
        last_result(results.drop_last(), id)
    }
}

/// The state that the program names by a word: words of its own, or the label of
/// a state.
pub fn told_state(word: &str) -> (state: Result<TaskState, UnknownState>)
    ensures
        word@ == "converged"@ ==> state == Ok::<TaskState, UnknownState>(TaskState::Succeeded),
        word@ == "failed"@ ==> state == Ok::<TaskState, UnknownState>(TaskState::Failed),
        word@ != "converged"@ && word@ != "failed"@ ==> match state {
            Ok(state) => state.label() == word@,
            Err(unknown) => unknown.label@ == word@ && forall|state: TaskState|
                #[trigger] state.label() != word@,
        },
        word@ == "Queued"@ ==> state == Ok::<TaskState, UnknownState>(TaskState::Queued),
        word@ == "Running"@ ==> state == Ok::<TaskState, UnknownState>(TaskState::Running),
        word@ == "Succeeded"@ ==> state == Ok::<TaskState, UnknownState>(TaskState::Succeeded),
        word@ == "Failed"@ ==> state == Ok::<TaskState, UnknownState>(TaskState::Failed),
        word@ == "Skipped"@ ==> state == Ok::<TaskState, UnknownState>(TaskState::Skipped),
        state is Ok ==> word@ == "converged"@ || word@ == "failed"@ || word@ == "Queued"@ || word@
            == "Running"@ || word@ == "Succeeded"@ || word@ == "Failed"@ || word@ == "Skipped"@,
{
    proof {
        reveal_strlit("Queued");
        reveal_strlit("Running");
        reveal_strlit("Succeeded");
        reveal_strlit("Failed");
        reveal_strlit("Skipped");
        reveal_strlit("converged");
        reveal_strlit("failed");
        assert("converged"@.len() != "failed"@.len());
        assert("converged"@[0] == 'c' && "failed"@[0] == 'f');
        assert("Queued"@[0] == 'Q' && "Running"@[0] == 'R' && "Failed"@[0] == 'F');
        assert("Succeeded"@[0] == 'S' && "Skipped"@[0] == 'S');
    }
    if same_text(word, "converged") {
        Ok(TaskState::Succeeded)
    } else if same_text(word, "failed") {
        Ok(TaskState::Failed)
    } else {
        TaskState::from_str(word)
    }
}

/// The output that is kept of what the program tells of a resource: the output
/// it gives, or else the error.
pub fn told_output(output: Option<Json>, error: Option<&str>) -> (kept: Option<Json>)
    ensures
        match (output, error) {
            (Some(output), _) => kept == Some(output),
            (None, Some(error)) => kept matches Some(json) && json@ == error_json(error@),
            (None, None) => kept is None,
        },
        output is None && error is Some ==> (kept matches Some(json) && json@ == "{\"error\":"@
            + json_string(error->Some_0@) + "}"@),
{
    match (output, error) {
        (Some(output), _) => Some(output),
        (None, Some(error)) => Some(error_output(error)),
        (None, None) => None,
    }
}

/// `clone` of `std::path::PathBuf`: the same path.
pub assume_specification[ <std::path::PathBuf as Clone>::clone ](path: &std::path::PathBuf) -> (copy:
    std::path::PathBuf)
    ensures
        copy == *path,
;

/// An argument of the program.
#[derive(Debug, PartialEq, Eq)]
pub enum Argument {
    Text(String),
    /// A path, Unicode or not.
    Path(std::path::PathBuf),
}

/// What an [`Argument`] says.
pub enum ArgumentView {
    Text(Seq<char>),
    Path(std::path::PathBuf),
}

impl View for Argument {
    type V = ArgumentView;

    open spec fn view(&self) -> ArgumentView {
        match *self {
            Argument::Text(text) => ArgumentView::Text(text@),
            Argument::Path(path) => ArgumentView::Path(path),
        }
    }
}

/// What arguments say.
pub open spec fn argument_views(args: Seq<Argument>) -> Seq<ArgumentView> {
    args.map_values(|arg: Argument| arg@)
}

/// Texts as arguments.
pub open spec fn words(texts: Seq<Seq<char>>) -> Seq<ArgumentView> {
    texts.map_values(|text: Seq<char>| ArgumentView::Text(text))
}

/// What is to be done next.
#[derive(Debug)]
pub enum ForjarStep {
    /// Record the changes, then run the program with `args`.
    Spawn { changes: Vec<StateChange>, args: Vec<Argument> },
    /// Read the results in what the program wrote, and hand them in.
    Read,
    /// Record the changes, then end the run with an error.
    Stop { changes: Vec<StateChange>, message: String },
}

/// What a [`ForjarStep`] says.
pub enum ForjarStepView {
    Spawn { changes: Seq<StateChangeView>, args: Seq<ArgumentView> },
    Read,
    Stop { changes: Seq<StateChangeView>, message: Seq<char> },
}

impl View for ForjarStep {
    type V = ForjarStepView;

    open spec fn view(&self) -> ForjarStepView {
        match *self {
            ForjarStep::Spawn { changes, args } => ForjarStepView::Spawn {
                changes: change_views(changes@),
                args: argument_views(args@),
            },
            ForjarStep::Read => ForjarStepView::Read,
            ForjarStep::Stop { changes, message } => ForjarStepView::Stop {
                changes: change_views(changes@),
                message: message@,
            },
        }
    }
}

/// Which command has been asked for last.
#[derive(Clone, Copy, Debug, PartialEq, Eq, Structural)]
pub enum Phase {
    /// That for the version of the program.
    Version,
    /// That which validates the resources.
    Validate,
    /// That which draws the resources.
    Draw,
    /// That which plans what is to be done to the resources.
    Plan,
    /// That which does it.
    Apply,
    /// That which tells how the resources fared.
    Status,
    /// None: the results are waited for.
    Results,
    /// None: the run has ended.
    Ended,
}

/// A run of the resources in progress.
#[derive(Debug)]
pub struct ForjarRun {
    run_id: String,
    bin: String,
    yaml_path: Option<String>,
    state_dir: std::path::PathBuf,
    yaml: ForjarYaml,
    phase: Phase,
    apply_complaint: Option<String>,
}

/// How far a run has come.
pub struct ForjarRunView {
    pub run_id: Seq<char>,
    /// The program, as it is shown.
    pub bin: Seq<char>,
    /// The path of the resources, where it is Unicode.
    pub yaml_path: Option<Seq<char>>,
    /// The directory for the state of the resources.
    pub state_dir: std::path::PathBuf,
    pub entries: Seq<(Seq<char>, ForjarResourceView)>,
    pub phase: Phase,
    /// What the program complained of when it could not do all that was planned.
    pub apply_complaint: Option<Seq<char>>,
}

impl View for ForjarRun {
    type V = ForjarRunView;

    closed spec fn view(&self) -> ForjarRunView {
        ForjarRunView {
            run_id: self.run_id@,
            bin: self.bin@,
            yaml_path: optional_text(self.yaml_path),
            state_dir: self.state_dir,
            entries: self.yaml@,
            phase: self.phase,
            apply_complaint: optional_text(self.apply_complaint),
        }
    }
}

/// All tasks in the same state, with the same output.
pub open spec fn all_in_state(
    names: Seq<Seq<char>>,
    state: TaskState,
    output_json: Option<Seq<char>>,
) -> Seq<StateChangeView> {
    names.map_values(|id: Seq<char>| StateChangeView { task_id: id, state, output_json })
}

/// The resource that has the id.
pub open spec fn resource_with(
    entries: Seq<(Seq<char>, ForjarResourceView)>,
    id: Seq<char>,
) -> ForjarResourceView {
    choose|resource: ForjarResourceView| entries.contains((id, resource))
}

impl ForjarRunView {
    /// The path of the resources is Unicode once the program has told its version,
    /// and the resources have an order once they are planned.
    pub open spec fn wf(self) -> bool {
        match self.phase {
            Phase::Version | Phase::Ended => true,
            Phase::Validate | Phase::Draw => self.yaml_path is Some,
            _ => {
                &&& self.yaml_path is Some
                &&& connected(resource_tasks(self.entries)) is Ok
            },
        }
    }

    /// All resources fail for the same reason.
    pub open spec fn all_fail(self, reason: Seq<char>) -> Seq<StateChangeView> {
        all_in_state(resource_ids(self.entries), TaskState::Failed, Some(error_json(reason)))
    }

    /// What follows on the reply to the command asked for last, given what the
    /// command complained of.
    pub open spec fn step_after(
        self,
        success: bool,
        status: Seq<char>,
        complaint: Seq<char>,
    ) -> ForjarStepView {
        let path = self.yaml_path->Some_0;
        let dir = ArgumentView::Path(self.state_dir);
        let quietly = |args: Seq<ArgumentView>|
            ForjarStepView::Spawn { changes: Seq::empty(), args };
        let fail = |command: Seq<char>|
            ForjarStepView::Stop {
                changes: self.all_fail(complaint),
                message: command_failure(command, complaint),
            };
        match self.phase {
            Phase::Version => if !success {
                ForjarStepView::Stop {
                    changes: Seq::empty(),
                    message: check_failure(self.bin, status, complaint),
                }
            } else {
                let changes = all_in_state(resource_ids(self.entries), TaskState::Running, None);
                if self.yaml_path is None {
                    ForjarStepView::Stop { changes, message: "non-utf8 yaml path"@ }
                } else {
                    ForjarStepView::Spawn { changes, args: words(seq!["validate"@, "-f"@, path]) }
                }
            },
            Phase::Validate => if !success {
                fail("validate"@)
            } else {
                quietly(words(seq!["graph"@, "-f"@, path, "--format"@, "mermaid"@]))
            },
            Phase::Draw => match ordered_ids(resource_tasks(self.entries)) {
                Ok(_) => quietly(words(seq!["plan"@, "-f"@, path, "--state-dir"@]).push(dir)),
                Err(error) => ForjarStepView::Stop {
                    changes: Seq::empty(),
                    message: order_failure(error),
                },
            },
            Phase::Plan => if !success {
                fail("plan"@)
            } else {
                quietly(words(seq!["apply"@, "-f"@, path, "--state-dir"@]).push(dir))
            },
            Phase::Apply => quietly(
                words(seq!["status"@, "--state-dir"@]).push(dir).push(ArgumentView::Text("--json"@)),
            ),
            _ => if !success {
                fail("status"@)
            } else {
                ForjarStepView::Read
            },
        }
    }

    /// The phase after a step.
    pub open spec fn phase_after(self, step: ForjarStepView) -> Phase {
        match step {
            ForjarStepView::Spawn { .. } => match self.phase {
                Phase::Version => Phase::Validate,
                Phase::Validate => Phase::Draw,
                Phase::Draw => Phase::Plan,
                Phase::Plan => Phase::Apply,
                _ => Phase::Status,
            },
            ForjarStepView::Read => Phase::Results,
            ForjarStepView::Stop { .. } => Phase::Ended,
        }
    }

    /// What is kept of a complaint: that of the command that does what was
    /// planned.
    pub open spec fn complaint_after(self, success: bool, complaint: Seq<char>) -> Option<
        Seq<char>,
    > {
        match self.phase {
            Phase::Apply => if success {
                None
            } else {
                Some(complaint)
            },
            _ => self.apply_complaint,
        }
    }

    /// Why a resource failed that the program gives no output of.
    pub open spec fn failure_reason(self) -> Seq<char> {
        match self.apply_complaint {
            Some(complaint) => complaint,
            None => "forjar gave no reason"@,
        }
    }

    /// How a resource fared. One that the program tells nothing of has failed
    /// where not all that was planned could be done, and was skipped otherwise.
    /// One that succeeded without output has its kind and id for an output, one
    /// that failed without output the reason.
    pub open spec fn settled(
        self,
        results: Seq<ResourceResultView>,
        id: Seq<char>,
    ) -> StateChangeView {
        match last_result(results, id) {
            Some(result) => StateChangeView {
                task_id: id,
                state: result.state,
                output_json: match (result.output, result.state) {
                    (Some(output), _) => Some(output),
                    (None, TaskState::Succeeded) => Some(
                        resource_json(id, resource_with(self.entries, id)),
                    ),
                    (None, TaskState::Failed) => Some(error_json(self.failure_reason())),
                    (None, _) => None,
                },
            },
            None => if self.apply_complaint is Some {
                StateChangeView {
                    task_id: id,
                    state: TaskState::Failed,
                    output_json: Some(error_json(self.failure_reason())),
                }
            } else {
                StateChangeView { task_id: id, state: TaskState::Skipped, output_json: None }
            },
        }
    }

    /// How the resources of `order` fared.
    pub open spec fn all_settled(
        self,
        results: Seq<ResourceResultView>,
        order: Seq<Seq<char>>,
    ) -> Seq<StateChangeView> {
        order.map_values(|id: Seq<char>| self.settled(results, id))
    }

    /// The report on the resources of `order`.
    pub open spec fn report(
        self,
        results: Seq<ResourceResultView>,
        order: Seq<Seq<char>>,
    ) -> ReportView {
        ReportView {
            run_id: self.run_id,
            task_states: Map::new(
                |id: Seq<char>| order.contains(id),
                |id: Seq<char>| self.settled(results, id).state,
            ),
            task_outputs: Map::new(
                |id: Seq<char>|
                    order.contains(id) && self.settled(results, id).output_json is Some,
                |id: Seq<char>| self.settled(results, id).output_json->Some_0,
            ),
            topo_order: order,
        }
    }
}

/// All tasks in the same state, with the same output.
fn changes_to(names: &Vec<String>, state: TaskState, output: Option<&Json>) -> (changes: Vec<
    StateChange,
>)
    ensures
        change_views(changes@) == all_in_state(
            texts(names@),
            state,
            match output {
                Some(json) => Some(json@),
                None => None,
            },
        ),
{
    let ghost output_json = match output {
        Some(json) => Some(json@),
        None => None,
    };
    let mut changes: Vec<StateChange> = Vec::new();
    for k in 0..names.len()
        invariant
            output_json == match output {
                Some(json) => Some(json@),
                None => None,
            },
            changes@.len() == k,
            forall|j: int|
                0 <= j < k ==> (#[trigger] changes@[j])@ == (StateChangeView {
                    task_id: names@[j]@,
                    state,
                    output_json,
                }),
    {
        let output_json = match output {
            Some(json) => Some(json.text().to_owned()),
            None => None,
        };
        changes.push(StateChange { task_id: names[k].clone(), state, output_json });
    }
    assert(change_views(changes@) =~= all_in_state(texts(names@), state, output_json));
    changes
}

/// What parts of arguments say.
spec fn part_texts(parts: Seq<&str>) -> Seq<Seq<char>> {
    parts.map_values(|part: &str| part@)
}

/// Texts as arguments.
fn arguments(parts: &Vec<&str>) -> (args: Vec<Argument>)
    ensures
        argument_views(args@) == words(part_texts(parts@)),
{
    let mut args: Vec<Argument> = Vec::new();
    for k in 0..parts.len()
        invariant
            args@.len() == k,
            forall|j: int|
                0 <= j < k ==> (#[trigger] args@[j])@ == ArgumentView::Text(parts@[j]@),
    {
        args.push(Argument::Text(parts[k].to_owned()));
    }
    assert(argument_views(args@) =~= words(part_texts(parts@)));
    args
}

/// The arguments with one more.
fn with_argument(args: Vec<Argument>, arg: Argument) -> (more: Vec<Argument>)
    ensures
        argument_views(more@) == argument_views(args@).push(arg@),
{
    let mut more = args;
    more.push(arg);
    assert(argument_views(more@) =~= argument_views(args@).push(arg@));
    more
}

/// No changes.
fn no_changes() -> (changes: Vec<StateChange>)
    ensures
        change_views(changes@) == Seq::<StateChangeView>::empty(),
{
    let changes: Vec<StateChange> = Vec::new();
    assert(change_views(changes@) =~= Seq::empty());
    changes
}

proof fn lemma_resource_is_unique(
    entries: Seq<(Seq<char>, ForjarResourceView)>,
    id: Seq<char>,
    resource: ForjarResourceView,
)
    requires
        resource_ids(entries).no_duplicates(),
        entries.contains((id, resource)),
    ensures
        resource_with(entries, id) == resource,
{
    let other = resource_with(entries, id);
    let i = entries.index_of((id, resource));
    let j = entries.index_of((id, other));
    assert(resource_ids(entries)[i] == resource_ids(entries)[j]);
}

proof fn lemma_push_contains(names: Seq<Seq<char>>, last: Seq<char>)
    ensures
        forall|name: Seq<char>| #[trigger]
            names.push(last).contains(name) <==> names.contains(name) || name == last,
{
    let more = names.push(last);
    assert forall|name: Seq<char>| #[trigger] more.contains(name) <==> names.contains(name) || name
        == last by {
        if names.contains(name) {
            assert(more[names.index_of(name)] == name);
        }
        if name == last {
            assert(more[names.len() as int] == name);
        }
        if more.contains(name) {
            let k = more.index_of(name);
            if k < names.len() {
                assert(names[k] == name);
            }
        }
    }
}

/// The last result that there is on a resource.
fn find_result<'a>(results: &'a Vec<ResourceResult>, id: &str) -> (found: Option<
    &'a ResourceResult,
>)
    ensures
        last_result(result_views(results@), id@) == match found {
            Some(result) => Some(result@),
            None => None,
        },
{
    let ghost views = result_views(results@);
    let mut k: usize = results.len();
    assert(views.take(k as int) =~= views);
    while k > 0
        invariant
            k <= results@.len(),
            views == result_views(results@),
            last_result(views, id@) == last_result(views.take(k as int), id@),
        decreases k,
    {
        let ghost front = views.take(k as int);
        assert(front.drop_last() =~= views.take(k - 1));
        assert(front.last() == results@[k - 1]@);
        if same_text(results[k - 1].id.as_str(), id) {
            return Some(&results[k - 1]);
        }
        k = k - 1;
    }
    None
}

impl ForjarRun {
    /// The resources are no more than a DAG can hold, each with an id of its own.
    pub closed spec fn yaml_fits(self) -> bool {
        self.yaml.wf() && self.yaml.fits()
    }

    /// What every run keeps.
    pub open spec fn wf(self) -> bool {
        self@.wf() && self.yaml_fits()
    }

    /// A run of the resources of `yaml`, which stand at `yaml_path` where that is
    /// Unicode, against the state in `state_dir`, with the program shown as `bin`.
    /// The version of the program is asked for first, to see that it is there.
    pub fn new(
        run_id: &str,
        bin: &str,
        yaml_path: Option<String>,
        state_dir: std::path::PathBuf,
        yaml: ForjarYaml,
    ) -> (started: (ForjarRun, ForjarStep))
        requires
            yaml.wf(),
            yaml.fits(),
        ensures
            started.0.wf(),
            started.0@ == (ForjarRunView {
                run_id: run_id@,
                bin: bin@,
                yaml_path: optional_text(yaml_path),
                state_dir,
                entries: yaml@,
                phase: Phase::Version,
                apply_complaint: None,
            }),
            started.1@ == (ForjarStepView::Spawn {
                changes: Seq::empty(),
                args: words(seq!["--version"@]),
            }),
            started.1 matches ForjarStep::Spawn { changes, args } && {
                &&& changes@.len() == 0
                &&& args@.len() == 1
                &&& args@[0] matches Argument::Text(text) && text@ == "--version"@
            },
    {
        let run = ForjarRun {
            run_id: run_id.to_owned(),
            bin: bin.to_owned(),
            yaml_path,
            state_dir,
            yaml,
            phase: Phase::Version,
            apply_complaint: None,
        };
        let parts = vec!["--version"];
        assert(part_texts(parts@) =~= seq!["--version"@]);
        let step = quietly(arguments(&parts));
        proof {
            step_says_what_it_holds(step, 0);
        }
        (run, step)
    }

    /// The edges to be recorded before the first command is run: for each
    /// dependency, resource by resource, the id that is depended on and that of
    /// the resource that depends.
    pub fn lineage(&self) -> (edges: Vec<(String, String)>)
        ensures
            pair_texts(edges@) == dependency_pairs(resource_tasks(self@.entries)),
            edges@.len() == dependency_pairs(resource_tasks(self@.entries)).len(),
            forall|k: int|
                0 <= k < edges@.len() ==> dependency_pairs(resource_tasks(self@.entries))[k] == (
                    (#[trigger] edges@[k]).0@,
                    edges@[k].1@,
                ),
    {
        self.yaml.edge_pairs()
    }

    /// Takes in how the command asked for last ended, and says what follows. The
    /// resources run once the program has told its version. They are validated
    /// and drawn, whatever comes of the drawing. Then what is to be done to them
    /// is planned and done, and the program is asked how they fared, also where
    /// not all could be done. Where another command fails, they fail together.
    pub fn reply(&mut self, reply: &CommandReply) -> (step: ForjarStep)
        requires
            old(self).wf(),
            !(old(self)@.phase is Results),
            !(old(self)@.phase is Ended),
        ensures
            final(self).wf(),
            step@ == old(self)@.step_after(
                reply.success,
                reply.status@,
                complaint(reply.stderr@),
            ),
            final(self)@ == (ForjarRunView {
                phase: old(self)@.phase_after(step@),
                apply_complaint: old(self)@.complaint_after(
                    reply.success,
                    complaint(reply.stderr@),
                ),
                ..old(self)@
            }),
            old(self)@.phase is Draw ==> (step is Spawn <==> connected(
                resource_tasks(old(self)@.entries),
            ) is Ok),
    {
        let text = read_lossy(&reply.stderr);
        self.take_reply(reply.success, reply.status.as_str(), trim_text(text.as_str()))
    }

    /// Takes in how the command asked for last ended, given what it complained
    /// of, and says what follows.
    pub fn take_reply(&mut self, success: bool, status: &str, complaint: &str) -> (step: ForjarStep)
        requires
            old(self).wf(),
            !(old(self)@.phase is Results),
            !(old(self)@.phase is Ended),
        ensures
            final(self).wf(),
            step@ == old(self)@.step_after(success, status@, complaint@),
            final(self)@ == (ForjarRunView {
                phase: old(self)@.phase_after(step@),
                apply_complaint: old(self)@.complaint_after(success, complaint@),
                ..old(self)@
            }),
            old(self)@.phase is Draw ==> (step is Spawn <==> connected(
                resource_tasks(old(self)@.entries),
            ) is Ok),
    {
        let step = self.step_after(success, status, complaint);
        if matches!(self.phase, Phase::Apply) {
            self.apply_complaint = if success {
                None
            } else {
                Some(complaint.to_owned())
            };
        }
        self.phase = match step {
            ForjarStep::Spawn { .. } => match self.phase {
                Phase::Version => Phase::Validate,
                Phase::Validate => Phase::Draw,
                Phase::Draw => Phase::Plan,
                Phase::Plan => Phase::Apply,
                _ => Phase::Status,
            },
            ForjarStep::Read => Phase::Results,
            ForjarStep::Stop { .. } => Phase::Ended,
        };
        step
    }

    /// The step that ends the run where a command has failed.
    fn fail(&self, command: &str, complaint: &str) -> (step: ForjarStep)
        ensures
            step@ == (ForjarStepView::Stop {
                changes: self@.all_fail(complaint@),
                message: command_failure(command@, complaint@),
            }),
    {
        let output = error_output(complaint);
        ForjarStep::Stop {
            changes: changes_to(&self.yaml.task_ids(), TaskState::Failed, Some(&output)),
            message: command_failure_message(command, complaint),
        }
    }

    /// What follows on the reply to the command asked for last, given what the
    /// command complained of.
    fn step_after(&self, success: bool, status: &str, complaint: &str) -> (step: ForjarStep)
        requires
            self.wf(),
            !(self@.phase is Results),
            !(self@.phase is Ended),
        ensures
            step@ == self@.step_after(success, status@, complaint@),
            self@.phase is Draw ==> (step is Spawn <==> connected(
                resource_tasks(self@.entries),
            ) is Ok),
    {
        if matches!(self.phase, Phase::Version) {
            return self.step_after_version(success, status, complaint);
        }
        let path = match &self.yaml_path {
            Some(path) => path.as_str(),
            None => "",
        };
        match self.phase {
            Phase::Validate => if !success {
                self.fail("validate", complaint)
            } else {
                let parts = vec!["graph", "-f", path, "--format", "mermaid"];
                assert(part_texts(parts@) =~= seq![
                    "graph"@,
                    "-f"@,
                    path@,
                    "--format"@,
                    "mermaid"@,
                ]);
                quietly(arguments(&parts))
            },
            Phase::Draw => match topo_order_from_resources(&self.yaml) {
                Ok(_) => {
                    let parts = vec!["plan", "-f", path, "--state-dir"];
                    assert(part_texts(parts@) =~= seq!["plan"@, "-f"@, path@, "--state-dir"@]);
                    quietly(with_argument(arguments(&parts), self.state_argument()))
                },
                Err(error) => ForjarStep::Stop {
                    changes: no_changes(),
                    message: order_failure_message(&error),
                },
            },
            Phase::Plan => if !success {
                self.fail("plan", complaint)
            } else {
                let parts = vec!["apply", "-f", path, "--state-dir"];
                assert(part_texts(parts@) =~= seq!["apply"@, "-f"@, path@, "--state-dir"@]);
                quietly(with_argument(arguments(&parts), self.state_argument()))
            },
            Phase::Apply => {
                let parts = vec!["status", "--state-dir"];
                assert(part_texts(parts@) =~= seq!["status"@, "--state-dir"@]);
                let args = with_argument(arguments(&parts), self.state_argument());
                quietly(with_argument(args, Argument::Text("--json".to_owned())))
            },
            _ => if !success {
                self.fail("status", complaint)
            } else {
                ForjarStep::Read
            },
        }
    }

    /// What follows on the reply to the command for the version.
    fn step_after_version(&self, success: bool, status: &str, complaint: &str) -> (step: ForjarStep)
        requires
            self@.phase is Version,
        ensures
            step@ == self@.step_after(success, status@, complaint@),
    {
        if !success {
            return ForjarStep::Stop {
                changes: no_changes(),
                message: check_failure_message(self.bin.as_str(), status, complaint),
            };
        }
        let changes = changes_to(&self.yaml.task_ids(), TaskState::Running, None);
        match &self.yaml_path {
            Some(path) => {
                let parts = vec!["validate", "-f", path.as_str()];
                assert(part_texts(parts@) =~= seq!["validate"@, "-f"@, path@]);
                ForjarStep::Spawn { changes, args: arguments(&parts) }
            },
            None => ForjarStep::Stop { changes, message: "non-utf8 yaml path".to_owned() },
        }
    }

    /// The directory for the state of the resources, as an argument.
    fn state_argument(&self) -> (arg: Argument)
        ensures
            arg@ == ArgumentView::Path(self@.state_dir),
    {
        Argument::Path(self.state_dir.clone())
    }

    /// Ends the run where the results cannot be read: the resources fail for that
    /// reason.
    pub fn unreadable(&mut self, reason: &str) -> (step: ForjarStep)
        requires
            old(self).wf(),
            old(self)@.phase is Results,
        ensures
            final(self).wf(),
            final(self)@ == (ForjarRunView { phase: Phase::Ended, ..old(self)@ }),
            step@ == (ForjarStepView::Stop {
                changes: old(self)@.all_fail(reason@),
                message: reason@,
            }),
    {
        let output = error_output(reason);
        let changes = changes_to(&self.yaml.task_ids(), TaskState::Failed, Some(&output));
        self.phase = Phase::Ended;
        ForjarStep::Stop { changes, message: reason.to_owned() }
    }

    /// How a resource fared, and the output that is kept of it.
    fn settle(&self, results: &Vec<ResourceResult>, id: &str) -> (settled: (
        TaskState,
        Option<Json>,
    ))
        requires
            self.wf(),
            has_key(self@.entries, id@),
        ensures
            self@.settled(result_views(results@), id@) == (StateChangeView {
                task_id: id@,
                state: settled.0,
                output_json: match settled.1 {
                    Some(json) => Some(json@),
                    None => None,
                },
            }),
    {
        let reason = match &self.apply_complaint {
            Some(complaint) => complaint.as_str(),
            None => "forjar gave no reason",
        };
        match find_result(results, id) {
            Some(result) => {
                let output = match (&result.output, result.state) {
                    (Some(output), _) => Some(output.clone()),
                    (None, TaskState::Succeeded) => match self.yaml.get(id) {
                        Some(resource) => {
                            proof {
                                lemma_resource_is_unique(self@.entries, id@, resource@);
                            }
                            Some(resource_output(id, resource))
                        },
                        None => None,
                    },
                    (None, TaskState::Failed) => Some(error_output(reason)),
                    (None, _) => None,
                };
                (result.state, output)
            },
            None => match &self.apply_complaint {
                Some(_) => (TaskState::Failed, Some(error_output(reason))),
                None => (TaskState::Skipped, None),
            },
        }
    }

    /// Takes in how the resources fared, and gives the changes to be recorded
    /// and the report: each resource once, in a topological order.
    #[verifier::spinoff_prover]
    #[verifier::rlimit(40)]
    pub fn finish(&mut self, results: &Vec<ResourceResult>) -> (finished: (
        Vec<StateChange>,
        RunReport,
    ))
        requires
            old(self).wf(),
            old(self)@.phase is Results,
        ensures
            final(self).wf(),
            final(self)@ == (ForjarRunView { phase: Phase::Ended, ..old(self)@ }),
            ordered_ids(resource_tasks(old(self)@.entries)) matches Ok(order) && {
                &&& change_views(finished.0@) == old(self)@.all_settled(
                    result_views(results@),
                    order,
                )
                &&& finished.1@ == old(self)@.report(result_views(results@), order)
                &&& finished.0@.len() == order.len()
                &&& forall|k: int|
                    0 <= k < order.len() ==> (#[trigger] finished.0@[k])@ == old(self)@.settled(
                        result_views(results@),
                        order[k],
                    )
            },
            result_views(results@).len() == results@.len(),
            forall|k: int|
                0 <= k < results@.len() ==> #[trigger] result_views(results@)[k] == results@[k]@,
            finished.1.wf(),
            forall|id: Seq<char>| #[trigger]
                finished.1.task_states@.contains_key(id) <==> resource_ids(
                    old(self)@.entries,
                ).contains(id),
    {
        let order = match topo_order_from_resources(&self.yaml) {
            Ok(order) => order,
            Err(_) => {
                assert(false);
                Vec::new()
            },
        };
        let ghost view = self@;
        let ghost views = result_views(results@);
        let ghost names = texts(order@);
        let mut changes: Vec<StateChange> = Vec::new();
        let mut task_states: OrderedMap<TaskState> = OrderedMap::new();
        let mut task_outputs: OrderedMap<Json> = OrderedMap::new();
        proof {
            let report = view.report(views, names.take(0));
            assert(task_states@ =~= report.task_states);
            assert(json_texts(task_outputs@) =~= report.task_outputs);
            assert(change_views(changes@) =~= view.all_settled(views, names.take(0)));
        }
        for k in 0..order.len()
            invariant
                self.wf(),
                view == self@,
                *self == *old(self),
                views == result_views(results@),
                names == texts(order@),
                same_names(names, resource_ids(view.entries)),
                task_states.wf(),
                task_outputs.wf(),
                change_views(changes@) == view.all_settled(views, names.take(k as int)),
                task_states@ == view.report(views, names.take(k as int)).task_states,
                json_texts(task_outputs@) == view.report(
                    views,
                    names.take(k as int),
                ).task_outputs,
        {
            let id = &order[k];
            let ghost done = names.take(k as int);
            let ghost more = names.take(k + 1);
            let ghost changes_before = changes@;
            let ghost outputs_before = task_outputs@;
            proof {
                assert(names[k as int] == id@);
                assert(more =~= done.push(id@));
                assert(names.contains(id@));
                let at = resource_ids(view.entries).index_of(id@);
                assert(view.entries[at].0 == id@);
                lemma_push_contains(done, id@);
            }
            let (state, output) = self.settle(results, id.as_str());
            let ghost settled = view.settled(views, id@);
            task_states.insert(id.clone(), state);
            let output_json = match output {
                Some(json) => {
                    proof {
                        lemma_json_texts_grow(outputs_before, id@, json);
                    }
                    let text = json.text().to_owned();
                    task_outputs.insert(id.clone(), json);
                    Some(text)
                },
                None => None,
            };
            changes.push(StateChange { task_id: id.clone(), state, output_json });
            proof {
                let report = view.report(views, more);
                assert(task_states@ =~= report.task_states);
                assert(json_texts(task_outputs@) =~= report.task_outputs);
                assert(changes@.last()@ == settled);
                assert(change_views(changes@) =~= change_views(changes_before).push(settled));
                assert(view.all_settled(views, more) =~= view.all_settled(views, done).push(
                    settled,
                ));
            }
        }
        proof {
            assert(names.take(names.len() as int) =~= names);
            let settled = view.all_settled(views, names);
            assert(change_views(changes@).len() == changes@.len());
            assert forall|k: int| 0 <= k < changes@.len() implies (#[trigger] changes@[k])@
                == view.settled(views, names[k]) by {
                assert(change_views(changes@)[k] == settled[k]);
            }
        }
        self.phase = Phase::Ended;
        let report = RunReport {
            run_id: self.run_id.clone(),
            task_states,
            task_outputs,
            topo_order: order,
        };
        (changes, report)
    }
}

/// The step that runs the program and records nothing.
fn quietly(args: Vec<Argument>) -> (step: ForjarStep)
    ensures
        step@ == (ForjarStepView::Spawn {
            changes: Seq::empty(),
            args: argument_views(args@),
        }),
{
    ForjarStep::Spawn { changes: no_changes(), args }
}

/// What a command complained of is what it wrote to standard error, without the
/// white space around it.
pub proof fn complaint_is_trimmed(stderr: Seq<u8>)
    ensures
        ({
            let text = lossy_text(stderr);
            exists|start: int, end: int|
                {
                    &&& 0 <= start <= end <= text.len()
                    &&& complaint(stderr) == #[trigger] text.subrange(start, end)
                    &&& forall|k: int|
                        0 <= k < start || end <= k < text.len() ==> crate::text::is_whitespace(
                            #[trigger] text[k],
                        )
                    &&& start < end ==> !crate::text::is_whitespace(text[start])
                        && !crate::text::is_whitespace(text[end - 1])
                }
        }),
{
    trimming_takes_off_white_space(lossy_text(stderr));
}

/// What a step says is what it holds: the changes and the arguments one by one,
/// and the message.
pub proof fn step_says_what_it_holds(step: ForjarStep, k: int)
    ensures
        match step {
            ForjarStep::Spawn { changes, args } => step@ matches ForjarStepView::Spawn {
                changes: told,
                args: words,
            } && {
                &&& told.len() == changes@.len()
                &&& words.len() == args@.len()
                &&& 0 <= k < told.len() ==> told[k] == changes@[k]@
                &&& 0 <= k < words.len() ==> match args@[k] {
                    Argument::Text(text) => words[k] == ArgumentView::Text(text@),
                    Argument::Path(path) => words[k] == ArgumentView::Path(path),
                }
            },
            ForjarStep::Read => step@ is Read,
            ForjarStep::Stop { changes, message } => step@ matches ForjarStepView::Stop {
                changes: told,
                message: text,
            } && {
                &&& told.len() == changes@.len()
                &&& 0 <= k < told.len() ==> told[k] == changes@[k]@
                &&& text == message@
            },
        },
{
}

/// What a result says is what it holds.
pub proof fn result_says_what_it_holds(result: ResourceResult)
    ensures
        result@.id == result.id@,
        result@.state == result.state,
        result.output is None ==> result@.output is None,
        result.output matches Some(json) ==> result@.output == Some(json@),
{
}

/// Where all resources fail for a reason, each is recorded as failed in the order
/// in which they are written, with the reason under `error`.
pub proof fn all_resources_fail(run: ForjarRunView, reason: Seq<char>, k: int)
    ensures
        run.all_fail(reason).len() == run.entries.len(),
        0 <= k < run.entries.len() ==> run.all_fail(reason)[k] == (StateChangeView {
            task_id: run.entries[k].0,
            state: TaskState::Failed,
            output_json: Some("{\"error\":"@ + json_string(reason) + "}"@),
        }),
{
    error_object_in_full(reason);
}

/// Once the program has told its version, every resource is recorded as running,
/// in the order in which they are written, and the resources are validated; where
/// it has not, nothing is recorded and the run stops.
pub proof fn after_the_version(run: ForjarRunView, status: Seq<char>, complaint: Seq<char>, k: int)
    requires
        run.phase is Version,
    ensures
        run.step_after(false, status, complaint) == (ForjarStepView::Stop {
            changes: Seq::empty(),
            message: "`"@ + run.bin + " --version` exited "@ + status + ": "@ + complaint,
        }),
        match run.step_after(true, status, complaint) {
            ForjarStepView::Spawn { changes, args } => {
                &&& run.yaml_path matches Some(path) && args == seq![
                    ArgumentView::Text("validate"@),
                    ArgumentView::Text("-f"@),
                    ArgumentView::Text(path),
                ]
                &&& changes.len() == run.entries.len()
                &&& 0 <= k < changes.len() ==> changes[k] == (StateChangeView {
                    task_id: run.entries[k].0,
                    state: TaskState::Running,
                    output_json: None,
                })
            },
            ForjarStepView::Stop { changes, message } => {
                &&& run.yaml_path is None
                &&& message == "non-utf8 yaml path"@
                &&& changes.len() == run.entries.len()
                &&& 0 <= k < changes.len() ==> changes[k] == (StateChangeView {
                    task_id: run.entries[k].0,
                    state: TaskState::Running,
                    output_json: None,
                })
            },
            ForjarStepView::Read => false,
        },
{
    if let ForjarStepView::Spawn { changes, args } = run.step_after(true, status, complaint) {
        let path = run.yaml_path->Some_0;
        assert(args =~= seq![
            ArgumentView::Text("validate"@),
            ArgumentView::Text("-f"@),
            ArgumentView::Text(path),
        ]);
    }
}

/// The resources are validated and drawn, then what is to be done is planned and
/// done, and then the program is asked how they fared: each command with its
/// arguments.
pub proof fn commands_follow_on_success(
    run: ForjarRunView,
    path: Seq<char>,
    success: bool,
    status: Seq<char>,
    complaint: Seq<char>,
)
    requires
        run.yaml_path == Some(path),
        success || run.phase is Draw || run.phase is Apply,
        run.phase is Draw ==> ordered_ids(resource_tasks(run.entries)) is Ok,
    ensures
        run.phase is Validate ==> run.step_after(success, status, complaint) == (
        ForjarStepView::Spawn {
            changes: Seq::empty(),
            args: seq![
                ArgumentView::Text("graph"@),
                ArgumentView::Text("-f"@),
                ArgumentView::Text(path),
                ArgumentView::Text("--format"@),
                ArgumentView::Text("mermaid"@),
            ],
        }),
        run.phase is Draw ==> run.step_after(success, status, complaint) == (
        ForjarStepView::Spawn {
            changes: Seq::empty(),
            args: seq![
                ArgumentView::Text("plan"@),
                ArgumentView::Text("-f"@),
                ArgumentView::Text(path),
                ArgumentView::Text("--state-dir"@),
                ArgumentView::Path(run.state_dir),
            ],
        }),
        run.phase is Plan ==> run.step_after(success, status, complaint) == (
        ForjarStepView::Spawn {
            changes: Seq::empty(),
            args: seq![
                ArgumentView::Text("apply"@),
                ArgumentView::Text("-f"@),
                ArgumentView::Text(path),
                ArgumentView::Text("--state-dir"@),
                ArgumentView::Path(run.state_dir),
            ],
        }),
        run.phase is Apply ==> run.step_after(success, status, complaint) == (
        ForjarStepView::Spawn {
            changes: Seq::empty(),
            args: seq![
                ArgumentView::Text("status"@),
                ArgumentView::Text("--state-dir"@),
                ArgumentView::Path(run.state_dir),
                ArgumentView::Text("--json"@),
            ],
        }),
        run.phase is Status ==> run.step_after(success, status, complaint) is Read,
{
    match run.phase {
        Phase::Validate => {
            assert(words(seq!["graph"@, "-f"@, path, "--format"@, "mermaid"@]) =~= seq![
                ArgumentView::Text("graph"@),
                ArgumentView::Text("-f"@),
                ArgumentView::Text(path),
                ArgumentView::Text("--format"@),
                ArgumentView::Text("mermaid"@),
            ]);
        },
        Phase::Draw => {
            assert(words(seq!["plan"@, "-f"@, path, "--state-dir"@]).push(
                ArgumentView::Path(run.state_dir),
            ) =~= seq![
                ArgumentView::Text("plan"@),
                ArgumentView::Text("-f"@),
                ArgumentView::Text(path),
                ArgumentView::Text("--state-dir"@),
                ArgumentView::Path(run.state_dir),
            ]);
        },
        Phase::Plan => {
            assert(words(seq!["apply"@, "-f"@, path, "--state-dir"@]).push(
                ArgumentView::Path(run.state_dir),
            ) =~= seq![
                ArgumentView::Text("apply"@),
                ArgumentView::Text("-f"@),
                ArgumentView::Text(path),
                ArgumentView::Text("--state-dir"@),
                ArgumentView::Path(run.state_dir),
            ]);
        },
        Phase::Apply => {
            assert(words(seq!["status"@, "--state-dir"@]).push(
                ArgumentView::Path(run.state_dir),
            ).push(ArgumentView::Text("--json"@)) =~= seq![
                ArgumentView::Text("status"@),
                ArgumentView::Text("--state-dir"@),
                ArgumentView::Path(run.state_dir),
                ArgumentView::Text("--json"@),
            ]);
        },
        _ => {},
    }
}

/// Where the command that validates, plans or asks how the resources fared has
/// failed, the run stops, and all resources fail for what the command complained
/// of. Resources that have no order stop the run with nothing recorded.
pub proof fn failed_commands_stop_the_run(
    run: ForjarRunView,
    success: bool,
    status: Seq<char>,
    complaint: Seq<char>,
)
    ensures
        run.phase is Validate && !success ==> run.step_after(success, status, complaint) == (
        ForjarStepView::Stop {
            changes: run.all_fail(complaint),
            message: "forjar validate failed: "@ + complaint,
        }),
        run.phase is Plan && !success ==> run.step_after(success, status, complaint) == (
        ForjarStepView::Stop {
            changes: run.all_fail(complaint),
            message: "forjar plan failed: "@ + complaint,
        }),
        run.phase is Status && !success ==> run.step_after(success, status, complaint) == (
        ForjarStepView::Stop {
            changes: run.all_fail(complaint),
            message: "forjar status failed: "@ + complaint,
        }),
        run.phase is Draw ==> (ordered_ids(resource_tasks(run.entries)) matches Err(error)
            ==> run.step_after(success, status, complaint) == (ForjarStepView::Stop {
            changes: Seq::empty(),
            message: order_failure(error),
        })),
{
    reveal_strlit("forjar ");
    reveal_strlit(" failed: ");
    reveal_strlit("validate");
    reveal_strlit("plan");
    reveal_strlit("status");
    reveal_strlit("forjar validate failed: ");
    reveal_strlit("forjar plan failed: ");
    reveal_strlit("forjar status failed: ");
    assert("forjar "@ + "validate"@ + " failed: "@ =~= "forjar validate failed: "@);
    assert("forjar "@ + "plan"@ + " failed: "@ =~= "forjar plan failed: "@);
    assert("forjar "@ + "status"@ + " failed: "@ =~= "forjar status failed: "@);
}

/// Each command that is run is the next after the one before; results are waited
/// for once the last has been read, and a run that stops has ended.
pub proof fn phases_follow_each_other(run: ForjarRunView, step: ForjarStepView)
    ensures
        run.phase_after(step) == match (step, run.phase) {
            (ForjarStepView::Read, _) => Phase::Results,
            (ForjarStepView::Stop { .. }, _) => Phase::Ended,
            (_, Phase::Version) => Phase::Validate,
            (_, Phase::Validate) => Phase::Draw,
            (_, Phase::Draw) => Phase::Plan,
            (_, Phase::Plan) => Phase::Apply,
            _ => Phase::Status,
        },
{
}

/// A complaint is kept of the command that does what was planned, where it
/// failed, and of no other.
pub proof fn only_complaints_of_apply_are_kept(
    run: ForjarRunView,
    success: bool,
    complaint: Seq<char>,
)
    ensures
        !(run.phase is Apply) ==> run.complaint_after(success, complaint) == run.apply_complaint,
        run.phase is Apply && success ==> run.complaint_after(success, complaint) is None,
        run.phase is Apply && !success ==> run.complaint_after(success, complaint) == Some(
            complaint,
        ),
{
}

proof fn lemma_last_result_is_at(results: Seq<ResourceResultView>, id: Seq<char>, at: int)
    requires
        0 <= at < results.len(),
        results[at].id == id,
        forall|later: int| at < later < results.len() ==> (#[trigger] results[later]).id != id,
    ensures
        last_result(results, id) == Some(results[at]),
    decreases results.len(),
{
    if at < results.len() - 1 {
        assert(results[results.len() - 1].id != id);
        lemma_last_result_is_at(results.drop_last(), id, at);
    }
}

proof fn lemma_no_result(results: Seq<ResourceResultView>, id: Seq<char>)
    requires
        forall|at: int| 0 <= at < results.len() ==> (#[trigger] results[at]).id != id,
    ensures
        last_result(results, id) is None,
    decreases results.len(),
{
    if results.len() > 0 {
        assert(results[results.len() - 1].id != id);
        lemma_no_result(results.drop_last(), id);
    }
}

/// A resource has the state of the last result on it, and its output. Without
/// one, a resource that succeeded has its type and id for an output, and one that
/// failed what the program complained of.
pub proof fn told_resources_fare_as_told(
    run: ForjarRunView,
    results: Seq<ResourceResultView>,
    at: int,
    place: int,
)
    requires
        resource_ids(run.entries).no_duplicates(),
        0 <= place < run.entries.len(),
        0 <= at < results.len(),
        results[at].id == run.entries[place].0,
        forall|later: int|
            at < later < results.len() ==> (#[trigger] results[later]).id != results[at].id,
    ensures
        ({
            let id = run.entries[place].0;
            let settled = run.settled(results, id);
            &&& settled.task_id == id
            &&& settled.state == results[at].state
            &&& results[at].output is Some ==> settled.output_json == results[at].output
            &&& results[at].output is None ==> match results[at].state {
                TaskState::Succeeded => settled.output_json == Some(
                    match run.entries[place].1.resource_type {
                        Some(kind) => "{\"kind\":"@ + json_string(kind) + ",\"task_id\":"@
                            + json_string(id) + "}"@,
                        None => "{\"kind\":\"unknown\",\"task_id\":"@ + json_string(id) + "}"@,
                    },
                ),
                TaskState::Failed => settled.output_json == Some(
                    "{\"error\":"@ + json_string(
                        match run.apply_complaint {
                            Some(complaint) => complaint,
                            None => "forjar gave no reason"@,
                        },
                    ) + "}"@,
                ),
                _ => settled.output_json is None,
            }
        }),
{
    let (id, resource) = run.entries[place];
    assert(run.entries.contains((id, resource)));
    lemma_resource_is_unique(run.entries, id, resource);
    lemma_last_result_is_at(results, id, at);
    resource_object_in_full(id, resource);
    error_object_in_full(run.failure_reason());
}

/// A resource that there is no result on has failed where the program could not
/// do all that was planned, for what it complained of, and was skipped otherwise.
pub proof fn untold_resources_fail_or_are_skipped(
    run: ForjarRunView,
    results: Seq<ResourceResultView>,
    id: Seq<char>,
)
    requires
        forall|at: int| 0 <= at < results.len() ==> (#[trigger] results[at]).id != id,
    ensures
        run.settled(results, id) == match run.apply_complaint {
            Some(complaint) => StateChangeView {
                task_id: id,
                state: TaskState::Failed,
                output_json: Some("{\"error\":"@ + json_string(complaint) + "}"@),
            },
            None => StateChangeView { task_id: id, state: TaskState::Skipped, output_json: None },
        },
{
    lemma_no_result(results, id);
    error_object_in_full(run.failure_reason());
}

/// The report tells of each resource of the order, and of no other, how it
/// fared, and so do the changes, in that order.
pub proof fn report_tells_how_resources_fared(
    run: ForjarRunView,
    results: Seq<ResourceResultView>,
    order: Seq<Seq<char>>,
    id: Seq<char>,
)
    ensures
        ({
            let report = run.report(results, order);
            let settled = run.settled(results, id);
            &&& report.run_id == run.run_id
            &&& report.topo_order == order
            &&& report.task_states.contains_key(id) <==> order.contains(id)
            &&& order.contains(id) ==> report.task_states[id] == settled.state
            &&& report.task_outputs.contains_key(id) <==> order.contains(id)
                && settled.output_json is Some
            &&& report.task_outputs.contains_key(id) ==> Some(report.task_outputs[id])
                == settled.output_json
        }),
        run.all_settled(results, order).len() == order.len(),
        forall|k: int|
            0 <= k < order.len() ==> #[trigger] run.all_settled(results, order)[k] == run.settled(
                results,
                order[k],
            ),
{
}

/// The tasks of a report all succeeded exactly where the program tells so of
/// every resource.
pub proof fn report_succeeds_with_all_resources(
    run: ForjarRunView,
    results: Seq<ResourceResultView>,
    order: Seq<Seq<char>>,
)
    ensures
        every_task_succeeded(run.report(results, order).task_states) <==> forall|k: int|
            0 <= k < order.len() ==> (last_result(results, #[trigger] order[k]) matches Some(
                result,
            ) && result.state is Succeeded),
{
    let states = run.report(results, order).task_states;
    if every_task_succeeded(states) {
        assert forall|k: int| 0 <= k < order.len() implies (last_result(
            results,
            #[trigger] order[k],
        ) matches Some(result) && result.state is Succeeded) by {
            assert(order.contains(order[k]));
            assert(states.contains_key(order[k]));
        }
    }
    if forall|k: int|
        0 <= k < order.len() ==> (last_result(results, #[trigger] order[k]) matches Some(result)
            && result.state is Succeeded) {
        assert forall|id: Seq<char>| #[trigger]
            states.contains_key(id) implies states[id] is Succeeded by {
            let k = order.index_of(id);
            assert(order[k] == id);
        }
    }
}

} // verus!
