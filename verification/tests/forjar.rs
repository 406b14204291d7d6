use std::path::PathBuf;

use dagflow::forjar::{
    check_failure_message, check_forjar_present, command_failure_message, resource_output,
    told_output, told_state, Argument, CommandReply, ForjarRun, ForjarStep, ResourceResult,
};
use dagflow::json::Json;
use dagflow::local::StateChange;
use dagflow::resources::{
    order_failure_message, topo_order_from_resources, ForjarResource, ForjarYaml,
};
use dagflow::spec::SpecError;
use dagflow::state::TaskState;

fn from_yaml(yaml: &str) -> ForjarYaml {
    let root: serde_yaml::Value = serde_yaml::from_str(yaml).unwrap();
    let mut found = ForjarYaml::new();
    for (id, resource) in root.get("resources").unwrap().as_mapping().unwrap() {
        let depends_on = match resource.get("depends_on") {
            Some(list) => list
                .as_sequence()
                .unwrap()
                .iter()
                .map(|d| d.as_str().unwrap().to_string())
                .collect(),
            None => Vec::new(),
        };
        let resource_type = resource.get("type").map(|t| t.as_str().unwrap().to_string());
        found.insert(
            id.as_str().unwrap().to_string(),
            ForjarResource { depends_on, resource_type },
        );
    }
    found
}

fn linear_chain() -> ForjarYaml {
    from_yaml(
        r#"
resources:
  extract:
    type: file
  transform:
    type: file
    depends_on: [extract]
  load:
    type: file
    depends_on: [transform]
"#,
    )
}

fn resource(depends_on: &[&str], resource_type: Option<&str>) -> ForjarResource {
    ForjarResource {
        depends_on: depends_on.iter().map(|d| d.to_string()).collect(),
        resource_type: resource_type.map(|t| t.to_string()),
    }
}

fn reply(success: bool, stderr: &[u8]) -> CommandReply {
    CommandReply {
        success,
        status: if success { "exit status: 0" } else { "exit status: 1" }.to_string(),
        stderr: stderr.to_vec(),
    }
}

fn told(changes: &[StateChange]) -> Vec<(String, TaskState, Option<String>)> {
    changes
        .iter()
        .map(|c| (c.task_id.clone(), c.state, c.output_json.clone()))
        .collect()
}

fn all_in(state: TaskState, output: Option<&str>) -> Vec<(String, TaskState, Option<String>)> {
    ["extract", "transform", "load"]
        .iter()
        .map(|id| (id.to_string(), state, output.map(|text| text.to_string())))
        .collect()
}

fn started(yaml: ForjarYaml) -> ForjarRun {
    let path = Some("f.yaml".to_string());
    ForjarRun::new("r1", "bin/forjar", path, PathBuf::from("state"), yaml).0
}

/// Hands in replies; the last command has told how the resources fared.
fn asked_for_results(run: &mut ForjarRun, applied: CommandReply) {
    for _ in 0..4 {
        run.reply(&reply(true, b""));
    }
    run.reply(&applied);
    assert!(matches!(run.reply(&reply(true, b"")), ForjarStep::Read));
}

fn shown(args: &[Argument]) -> Vec<&str> {
    args.iter()
        .map(|arg| match arg {
            Argument::Text(text) => text.as_str(),
            Argument::Path(path) => path.to_str().unwrap(),
        })
        .collect()
}

fn result(id: &str, state: TaskState, output: Option<Json>) -> ResourceResult {
    ResourceResult { id: id.to_string(), state, output }
}

#[test]
fn topo_order_for_linear_chain() {
    let yaml = linear_chain();
    let order = topo_order_from_resources(&yaml).unwrap();
    assert_eq!(order, vec!["extract", "transform", "load"]);
}

#[test]
fn topo_order_dangling_dep_errors() {
    let yaml = from_yaml(
        r#"
resources:
  bad:
    type: file
    depends_on: [ghost]
"#,
    );
    let err = topo_order_from_resources(&yaml).unwrap_err();
    assert!(order_failure_message(&err).contains("ghost"));
}

#[test]
fn order_failures() {
    let mut yaml = ForjarYaml::new();
    yaml.insert("bad".to_string(), resource(&["ghost"], None));
    assert_eq!(
        order_failure_message(&topo_order_from_resources(&yaml).unwrap_err()),
        "forjar.yaml: 'bad' depends on unknown 'ghost'"
    );
    yaml.insert("ghost".to_string(), resource(&[], None));
    yaml.insert("bad".to_string(), resource(&["ghost", "ghost"], None));
    let err = topo_order_from_resources(&yaml).unwrap_err();
    assert!(matches!(err, SpecError::RefusedEdge { .. }));
    assert_eq!(
        order_failure_message(&err),
        "ForjarRunner: failed to add edge ghost -> bad"
    );
    yaml.insert("bad".to_string(), resource(&["bad"], None));
    let err = topo_order_from_resources(&yaml).unwrap_err();
    assert!(matches!(err, SpecError::Cyclic(_)));
    assert_eq!(order_failure_message(&err), "ForjarRunner: topo_sort failed");
}

#[test]
fn replaced_resource_keeps_its_place() {
    let mut yaml = ForjarYaml::new();
    assert_eq!(yaml.len(), 0);
    yaml.insert("z".to_string(), resource(&[], Some("file")));
    yaml.insert("a".to_string(), resource(&["z"], None));
    yaml.insert("z".to_string(), resource(&[], Some("package")));
    assert_eq!(yaml.task_ids(), vec!["z", "a"]);
    assert_eq!(yaml.len(), 2);
    let kept = yaml.get("z").unwrap();
    assert_eq!(kept.resource_type, Some("package".to_string()));
    assert!(yaml.get("b").is_none());
    assert_eq!(yaml.edge_pairs(), vec![("z".to_string(), "a".to_string())]);
}

#[test]
fn outputs_tell_kind_and_id() {
    assert_eq!(
        resource_output("one", &resource(&[], Some("file"))).text(),
        "{\"kind\":\"file\",\"task_id\":\"one\"}"
    );
    assert_eq!(
        resource_output("two", &resource(&[], None)).text(),
        "{\"kind\":\"unknown\",\"task_id\":\"two\"}"
    );
}

#[test]
fn commands_of_a_whole_run() {
    let (mut run, step) = ForjarRun::new(
        "r1",
        "forjar",
        Some("f.yaml".to_string()),
        PathBuf::from("state/r1"),
        linear_chain(),
    );
    assert_eq!(
        run.lineage(),
        vec![
            ("extract".to_string(), "transform".to_string()),
            ("transform".to_string(), "load".to_string()),
        ]
    );
    let commands = [
        vec!["--version"],
        vec!["validate", "-f", "f.yaml"],
        vec!["graph", "-f", "f.yaml", "--format", "mermaid"],
        vec!["plan", "-f", "f.yaml", "--state-dir", "state/r1"],
        vec!["apply", "-f", "f.yaml", "--state-dir", "state/r1"],
        vec!["status", "--state-dir", "state/r1", "--json"],
    ];
    let mut step = step;
    for (place, command) in commands.iter().enumerate() {
        match step {
            ForjarStep::Spawn { changes, args } => {
                assert_eq!(&shown(&args), command);
                let paths = args.iter().filter(|arg| matches!(arg, Argument::Path(_))).count();
                assert_eq!(paths, if place >= 3 { 1 } else { 0 });
                if place == 1 {
                    assert_eq!(told(&changes), all_in(TaskState::Running, None));
                } else {
                    assert!(changes.is_empty());
                }
            }
            _ => panic!("a command was to follow"),
        }
        // Whatever comes of the drawing, the run goes on.
        step = run.reply(&reply(place != 2, b"no drawing"));
    }
    assert!(matches!(step, ForjarStep::Read));
}

#[test]
fn report_tells_what_the_program_told() {
    let mut run = started(linear_chain());
    asked_for_results(&mut run, reply(true, b""));
    let (changes, report) = run.finish(&vec![
        result("load", TaskState::Failed, Some(Json::string("disk full"))),
        result("extract", TaskState::Failed, None),
        result("elsewhere", TaskState::Succeeded, None),
        result("extract", TaskState::Succeeded, Some(Json::integer(3))),
    ]);
    assert_eq!(
        told(&changes),
        vec![
            ("extract".to_string(), TaskState::Succeeded, Some("3".to_string())),
            ("transform".to_string(), TaskState::Skipped, None),
            ("load".to_string(), TaskState::Failed, Some("\"disk full\"".to_string())),
        ]
    );
    assert_eq!(report.run_id, "r1");
    assert_eq!(report.topo_order, vec!["extract", "transform", "load"]);
    assert_eq!(report.task_states.len(), 3);
    assert_eq!(report.task_states.get("load"), Some(&TaskState::Failed));
    assert_eq!(report.task_outputs.get("extract").unwrap().text(), "3");
    assert!(report.task_outputs.get("transform").is_none());
    assert!(!report.all_succeeded());
}

#[test]
fn successes_without_output_tell_kind_and_id() {
    let mut run = started(linear_chain());
    asked_for_results(&mut run, reply(true, b""));
    let results = ["extract", "transform", "load"]
        .iter()
        .map(|id| result(id, TaskState::Succeeded, None))
        .collect();
    let (_, report) = run.finish(&results);
    assert!(report.all_succeeded());
    assert_eq!(
        report.task_outputs.get("load").unwrap().text(),
        "{\"kind\":\"file\",\"task_id\":\"load\"}"
    );
}

#[test]
fn what_could_not_be_done_is_told() {
    let mut run = started(linear_chain());
    asked_for_results(&mut run, reply(false, b" no disk\n"));
    let (changes, _) = run.finish(&vec![
        result("extract", TaskState::Succeeded, Some(Json::null())),
        result("transform", TaskState::Failed, None),
    ]);
    let reason = Some("{\"error\":\"no disk\"}".to_string());
    assert_eq!(
        told(&changes),
        vec![
            ("extract".to_string(), TaskState::Succeeded, Some("null".to_string())),
            ("transform".to_string(), TaskState::Failed, reason.clone()),
            ("load".to_string(), TaskState::Failed, reason),
        ]
    );
    let mut run = started(linear_chain());
    asked_for_results(&mut run, reply(true, b""));
    let (changes, _) = run.finish(&vec![result("load", TaskState::Failed, None)]);
    assert_eq!(
        told(&changes)[2].2,
        Some("{\"error\":\"forjar gave no reason\"}".to_string())
    );
}

#[test]
fn missing_version_stops_the_run() {
    let mut run = started(linear_chain());
    match run.reply(&reply(false, b"  boom\n")) {
        ForjarStep::Stop { changes, message } => {
            assert!(changes.is_empty());
            assert_eq!(message, "`bin/forjar --version` exited exit status: 1: boom");
        }
        _ => panic!("the program has not told its version"),
    }
}

#[test]
fn resources_fail_together_with_the_reason() {
    for (done, command) in [(1, "validate"), (3, "plan"), (5, "status")] {
        let mut run = started(linear_chain());
        for _ in 0..done {
            run.reply(&reply(true, b""));
        }
        match run.reply(&reply(false, b"\tbad \xff resource \r\n")) {
            ForjarStep::Stop { changes, message } => {
                assert_eq!(
                    told(&changes),
                    all_in(TaskState::Failed, Some("{\"error\":\"bad \u{fffd} resource\"}"))
                );
                assert_eq!(message, format!("forjar {command} failed: bad \u{fffd} resource"));
            }
            _ => panic!("the command has failed"),
        }
    }
}

#[test]
fn yaml_path_must_be_unicode() {
    let (mut run, _) =
        ForjarRun::new("r1", "forjar", None, PathBuf::from("state"), linear_chain());
    match run.reply(&reply(true, b"")) {
        ForjarStep::Stop { changes, message } => {
            assert_eq!(told(&changes), all_in(TaskState::Running, None));
            assert_eq!(message, "non-utf8 yaml path");
        }
        _ => panic!("there is no path to hand on"),
    }
}

#[test]
fn unreadable_results_fail_the_resources() {
    let mut run = started(linear_chain());
    asked_for_results(&mut run, reply(true, b""));
    match run.unreadable("malformed forjar status") {
        ForjarStep::Stop { changes, message } => {
            assert_eq!(
                told(&changes),
                all_in(TaskState::Failed, Some("{\"error\":\"malformed forjar status\"}"))
            );
            assert_eq!(message, "malformed forjar status");
        }
        _ => panic!("the results cannot be read"),
    }
}

#[test]
fn words_of_the_program() {
    assert_eq!(told_state("converged").unwrap(), TaskState::Succeeded);
    assert_eq!(told_state("failed").unwrap(), TaskState::Failed);
    assert_eq!(told_state("Skipped").unwrap(), TaskState::Skipped);
    assert_eq!(told_state("drifted").unwrap_err().label, "drifted");
    assert_eq!(told_output(Some(Json::integer(1)), Some("x")), Some(Json::integer(1)));
    assert_eq!(told_output(None, Some("x")).unwrap().text(), "{\"error\":\"x\"}");
    assert_eq!(told_output(None, None), None);
}

#[test]
fn resources_without_order_stop_the_run() {
    let mut yaml = ForjarYaml::new();
    yaml.insert("a".to_string(), resource(&["a"], None));
    let mut run = started(yaml);
    run.reply(&reply(true, b""));
    run.reply(&reply(true, b""));
    match run.take_reply(true, "exit status: 0", "") {
        ForjarStep::Stop { changes, message } => {
            assert!(changes.is_empty());
            assert_eq!(message, "ForjarRunner: topo_sort failed");
        }
        _ => panic!("the resources have no order"),
    }
}

#[test]
fn presence_check() {
    assert_eq!(check_forjar_present("forjar", &reply(true, b"")), Ok(()));
    assert_eq!(
        check_forjar_present("forjar", &reply(false, b" gone ")),
        Err("`forjar --version` exited exit status: 1: gone".to_string())
    );
    assert_eq!(check_failure_message("f", "2", "x"), "`f --version` exited 2: x");
    assert_eq!(command_failure_message("validate", "x"), "forjar validate failed: x");
}
