use std::str::FromStr;

use dagflow::state::TaskState;

#[test]
fn label_roundtrip() {
    for s in [
        TaskState::Queued,
        TaskState::Running,
        TaskState::Succeeded,
        TaskState::Failed,
        TaskState::Skipped,
    ] {
        let parsed: TaskState = TaskState::from_str(s.as_label()).unwrap();
        assert_eq!(parsed, s);
    }
}

#[test]
fn unknown_label_errors() {
    assert!(TaskState::from_str("RogueState").is_err());
}

#[test]
fn json_serialization_uses_pascal_case() {
    let json = dagflow::json::Json::string(TaskState::Succeeded.as_label());
    assert_eq!(json.text(), r#""Succeeded""#);
}

#[test]
fn unknown_label_message() {
    let err = TaskState::from_str("RogueState").unwrap_err();
    assert_eq!(err.message(), "unknown TaskState: RogueState");
    assert!(TaskState::from_str("succeeded").is_err());
    assert!(TaskState::from_str("").is_err());
}

#[test]
fn states_are_shown_by_their_labels() {
    assert_eq!(TaskState::Skipped.to_string(), "Skipped");
    let shown: &str = TaskState::Queued.as_ref();
    assert_eq!(shown, "Queued");
}

#[test]
fn only_ended_tasks_are_finished() {
    assert!(!TaskState::Queued.is_finished());
    assert!(!TaskState::Running.is_finished());
    assert!(TaskState::Succeeded.is_finished());
    assert!(TaskState::Failed.is_finished());
    assert!(TaskState::Skipped.is_finished());
}
