use dagflow::json::Json;
use dagflow::ordered::OrderedMap;
use dagflow::report::RunReport;
use dagflow::state::TaskState;

fn report(order: &[&str]) -> RunReport {
    RunReport {
        run_id: "r1".into(),
        task_states: OrderedMap::new(),
        task_outputs: OrderedMap::new(),
        topo_order: order.iter().map(|id| id.to_string()).collect(),
    }
}

fn json(n: i64) -> Json {
    Json::integer(n)
}

#[test]
fn run_report_all_succeeded_works() {
    let mut r = report(&["a", "b"]);
    r.task_states.insert("a".into(), TaskState::Succeeded);
    r.task_states.insert("b".into(), TaskState::Succeeded);
    assert!(r.all_succeeded());

    r.task_states.insert("b".into(), TaskState::Failed);
    assert!(!r.all_succeeded());
}

#[test]
fn outputs_in_order_uses_topo() {
    let mut r = report(&["a", "b", "c"]);
    r.task_outputs.insert("a".into(), json(1));
    r.task_outputs.insert("b".into(), json(2));
    r.task_outputs.insert("c".into(), json(3));
    let v = r.outputs_in_order();
    assert_eq!(v.len(), 3);
    assert_eq!(v[0], &json(1));
    assert_eq!(v[2], &json(3));
}

#[test]
fn report_without_tasks_is_a_success() {
    assert!(report(&[]).all_succeeded());
}

#[test]
fn tasks_without_output_are_left_out() {
    let mut r = report(&["c", "b", "a"]);
    r.task_outputs.insert("a".into(), json(1));
    r.task_outputs.insert("c".into(), json(3));
    assert_eq!(r.outputs_in_order(), vec![&json(3), &json(1)]);
}

#[test]
fn ordered_map_lists_keys_by_their_bytes() {
    let mut map: OrderedMap<i64> = OrderedMap::new();
    assert!(map.is_empty());
    for (n, key) in ["b", "a", "", "\u{e9}", "ab", "B", "a"].iter().enumerate() {
        map.insert(key.to_string(), n as i64);
    }
    let entries: Vec<(&str, i64)> = (0..map.len())
        .map(|k| (map.entry(k).0.as_str(), *map.entry(k).1))
        .collect();
    assert_eq!(
        entries,
        vec![("", 2), ("B", 5), ("a", 6), ("ab", 4), ("b", 0), ("\u{e9}", 3)]
    );
    assert_eq!(map.get("ab"), Some(&4));
    assert_eq!(map.get("abc"), None);
    assert_eq!(map.position("a"), Some(2));
}
