//! The state of a task within a run.
use vstd::prelude::*;

use crate::text::same_text;

verus! {

/// Lifecycle of a single task within a DAG run.
#[derive(Clone, Copy, Debug, PartialEq, Eq, Hash, Structural)]
pub enum TaskState {
    /// Visible to the runner, not yet picked up.
    Queued,
    /// Execution has started.
    Running,
    /// Completed cleanly.
    Succeeded,
    /// Ended with an error.
    Failed,
    /// Not executed because an earlier task failed.
    Skipped,
}

/// A label that names no state.
#[derive(Debug)]
pub struct UnknownState {
    pub label: String,
}

impl UnknownState {
    /// The message for people.
    pub fn message(&self) -> (text: String)
        ensures
            text@ == "unknown TaskState: "@ + self.label@,
    {
        let mut text = "unknown TaskState: ".to_owned();
        text.append(self.label.as_str());
        text
    }
}

impl TaskState {
    /// The label of a state.
    pub open spec fn label(self) -> Seq<char> {
        match self {
            TaskState::Queued => "Queued"@,
            TaskState::Running => "Running"@,
            TaskState::Succeeded => "Succeeded"@,
            TaskState::Failed => "Failed"@,
            TaskState::Skipped => "Skipped"@,
        }
    }

    /// The task has come to an end, well or not.
    pub open spec fn finished(self) -> bool {
        self is Succeeded || self is Failed || self is Skipped
    }

    /// Stable label, as it is stored and shown.
    pub fn as_label(&self) -> (label: &'static str)
        ensures
            label@ == self.label(),
            self is Queued ==> label@ == "Queued"@,
            self is Running ==> label@ == "Running"@,
            self is Succeeded ==> label@ == "Succeeded"@,
            self is Failed ==> label@ == "Failed"@,
            self is Skipped ==> label@ == "Skipped"@,
    {
        match self {
            TaskState::Queued => "Queued",
            TaskState::Running => "Running",
            TaskState::Succeeded => "Succeeded",
            TaskState::Failed => "Failed",
            TaskState::Skipped => "Skipped",
        }
    }

    /// Whether the task has come to an end, well or not.
    pub fn is_finished(&self) -> (finished: bool)
        ensures
            finished == self.finished(),
            finished == !(self is Queued || self is Running),
    {
        matches!(self, TaskState::Succeeded | TaskState::Failed | TaskState::Skipped)
    }

    /// The label as an owned string.
    pub fn to_string(&self) -> (text: String)
        ensures
            text@ == self.label(),
            self is Queued ==> text@ == "Queued"@,
            self is Running ==> text@ == "Running"@,
            self is Succeeded ==> text@ == "Succeeded"@,
            self is Failed ==> text@ == "Failed"@,
            self is Skipped ==> text@ == "Skipped"@,
    {
        self.as_label().to_owned()
    }
}

impl std::str::FromStr for TaskState {
    type Err = UnknownState;

    /// The state that a label names.
    fn from_str(s: &str) -> (parsed: Result<TaskState, UnknownState>)
        ensures
            match parsed {
                Ok(state) => state.label() == s@,
                Err(unknown) => unknown.label@ == s@ && forall|state: TaskState|
                    #[trigger] state.label() != s@,
            },
            forall|state: TaskState|
                #[trigger] state.label() == s@ ==> parsed == Ok::<TaskState, UnknownState>(state),
            parsed matches Ok(TaskState::Queued) <==> s@ == "Queued"@,
            parsed matches Ok(TaskState::Running) <==> s@ == "Running"@,
            parsed matches Ok(TaskState::Succeeded) <==> s@ == "Succeeded"@,
            parsed matches Ok(TaskState::Failed) <==> s@ == "Failed"@,
            parsed matches Ok(TaskState::Skipped) <==> s@ == "Skipped"@,
    {
        let parsed = if same_text(s, "Queued") {
            Ok(TaskState::Queued)
        } else if same_text(s, "Running") {
            Ok(TaskState::Running)
        } else if same_text(s, "Succeeded") {
            Ok(TaskState::Succeeded)
        } else if same_text(s, "Failed") {
            Ok(TaskState::Failed)
        } else if same_text(s, "Skipped") {
            Ok(TaskState::Skipped)
        } else {
            Err(UnknownState { label: s.to_owned() })
        };
        proof {
            assert(s@ == "Queued"@ ==> s@ == TaskState::Queued.label());
            assert(s@ == "Running"@ ==> s@ == TaskState::Running.label());
            assert(s@ == "Succeeded"@ ==> s@ == TaskState::Succeeded.label());
            assert(s@ == "Failed"@ ==> s@ == TaskState::Failed.label());
            assert(s@ == "Skipped"@ ==> s@ == TaskState::Skipped.label());
            if let Ok(found) = parsed {
                assert forall|state: TaskState| #[trigger] state.label() == s@ implies parsed
                    == Ok::<TaskState, UnknownState>(state) by {
                    labels_differ(found, state);
                }
            }
        }
        parsed
    }
}

impl AsRef<str> for TaskState {
    fn as_ref(&self) -> (label: &str)
        ensures
            label@ == self.label(),
    {
        self.as_label()
    }
}

/// The label of a state is its name.
pub proof fn labels_are_the_names(state: TaskState)
    ensures
        match state {
            TaskState::Queued => state.label() == "Queued"@,
            TaskState::Running => state.label() == "Running"@,
            TaskState::Succeeded => state.label() == "Succeeded"@,
            TaskState::Failed => state.label() == "Failed"@,
            TaskState::Skipped => state.label() == "Skipped"@,
        },
{
}

/// States have different labels, so that a label names one state at most.
pub proof fn labels_differ(a: TaskState, b: TaskState)
    requires
        a.label() == b.label(),
    ensures
        a == b,
{
    reveal_strlit("Queued");
    reveal_strlit("Running");
    reveal_strlit("Succeeded");
    reveal_strlit("Failed");
    reveal_strlit("Skipped");
    assert("Queued"@[0] == 'Q' && "Running"@[0] == 'R' && "Failed"@[0] == 'F');
    assert("Succeeded"@[1] == 'u' && "Skipped"@[1] == 'k');
    assert("Succeeded"@[0] == 'S' && "Skipped"@[0] == 'S');
    assert(a.label()[0] == b.label()[0]);
    assert(a.label()[1] == b.label()[1]);
}

} // verus!
