use dagflow::backfill::{
    backfill_days, backfill_run_id, end_before_start_message, plan_backfill, plan_days,
    run_failure_message, settle_run, BackfillError,
};
use dagflow::commands::{lineage_json, run_id_or};
use dagflow::ordered::OrderedMap;
use dagflow::report::RunReport;
use dagflow::state::TaskState;
use dagflow::time::{
    choose_date, parse_date, BadDate, Timestamp, DAY, FIRST_SECOND, LAST_SECOND, YEAR_9999_END,
    YEAR_ZERO,
};

type Utc = chrono::DateTime<chrono::Utc>;

fn instant(seconds: i64, nanos: u32) -> Timestamp {
    Timestamp { seconds, nanos }
}

fn chrono_of(t: &Timestamp) -> Utc {
    chrono::DateTime::from_timestamp(t.seconds, t.nanos).unwrap()
}

#[test]
fn parse_date_accepts_date_only() {
    let d = parse_date("2026-05-04").unwrap();
    assert_eq!(d.day_text(), "2026-05-04");
}

#[test]
fn parse_date_accepts_rfc3339() {
    let d = parse_date("2026-05-04T12:30:00Z").unwrap();
    assert_eq!(chrono_of(&d).format("%H").to_string(), "12");
}

#[test]
fn parse_date_rejects_bad_input() {
    assert!(parse_date("not-a-date").is_err());
}

#[test]
fn dates_stand_for_midnight() {
    assert_eq!(parse_date("1970-01-02").unwrap(), instant(86400, 0));
    assert_eq!(
        parse_date("1970-01-02T01:00:00.5+01:00").unwrap(),
        instant(86400, 500000000)
    );
    assert_eq!(parse_date("1970-13-02").unwrap_err().text, "1970-13-02");
}

#[test]
fn day_reading_comes_first() {
    let day = instant(86400, 0);
    let other = instant(5, 6);
    assert_eq!(choose_date(Some(day), Ok(other)).unwrap(), day);
    assert_eq!(choose_date(None, Ok(other)).unwrap(), other);
    let bad = BadDate { text: "x".to_string() };
    assert_eq!(choose_date(None, Err(bad)).unwrap_err().text, "x");
}

#[test]
fn bounds_are_those_of_chrono() {
    assert_eq!(FIRST_SECOND, Utc::MIN_UTC.timestamp());
    assert_eq!(LAST_SECOND, Utc::MAX_UTC.timestamp());
    assert!(chrono::DateTime::<chrono::Utc>::from_timestamp(FIRST_SECOND, 0).is_some());
    assert!(chrono::DateTime::<chrono::Utc>::from_timestamp(FIRST_SECOND - 1, 0).is_none());
    assert!(chrono::DateTime::<chrono::Utc>::from_timestamp(LAST_SECOND, 1999999999).is_some());
    assert!(chrono::DateTime::<chrono::Utc>::from_timestamp(LAST_SECOND + 1, 0).is_none());
    assert_eq!(instant(YEAR_ZERO, 0).to_rfc3339(), "0000-01-01T00:00:00+00:00");
    assert_eq!(instant(YEAR_9999_END, 0).to_rfc3339(), "9999-12-31T23:59:59+00:00");
}

#[test]
fn rfc3339_roundtrip_in_four_digit_years() {
    let all = [
        instant(0, 0),
        instant(-1, 999999999),
        instant(1777896000, 120000000),
        instant(YEAR_ZERO, 7),
        instant(YEAR_9999_END, 999999999),
        instant(1483228799, 1500000000),
    ];
    for t in all {
        assert_eq!(Timestamp::from_rfc3339(&t.to_rfc3339()).unwrap(), t);
    }
    assert_eq!(instant(1483228799, 1500000000).to_rfc3339(), "2016-12-31T23:59:60.500+00:00");
}

#[test]
fn rfc3339_knows_no_sign() {
    let early = instant(YEAR_ZERO - 1, 0);
    assert_eq!(early.to_rfc3339(), "-0001-12-31T23:59:59+00:00");
    assert_eq!(
        Timestamp::from_rfc3339(&early.to_rfc3339()).unwrap_err().text,
        "-0001-12-31T23:59:59+00:00"
    );
}

#[test]
fn day_text_names_the_day() {
    for t in [instant(YEAR_ZERO, 0), instant(-1, 0), instant(951868799, 5)] {
        let day = parse_date(&t.day_text()).unwrap();
        assert_eq!(day.seconds, t.seconds - t.seconds.rem_euclid(DAY));
        assert_eq!(day.nanos, 0);
    }
    assert_eq!(instant(951868799, 5).day_text(), "2000-02-29");
}

#[test]
fn texts_for_people() {
    assert_eq!(instant(1777896000, 0).to_text(), "2026-05-04 12:00:00 UTC");
}

#[test]
fn backfill_covers_both_ends() {
    let plan = plan_backfill("2026-02-27", "2026-03-01").unwrap();
    assert_eq!(
        plan.run_ids,
        vec!["backfill-2026-02-27", "backfill-2026-02-28", "backfill-2026-03-01"]
    );
    assert_eq!(
        plan.completed_message(),
        "OK: backfill complete \u{2014} 3 run(s) from 2026-02-27 to 2026-03-01"
    );
    let one = plan_backfill("2026-02-27", "2026-02-27").unwrap();
    assert_eq!(one.run_ids, vec!["backfill-2026-02-27"]);
}

#[test]
fn backfill_covers_every_date() {
    let plan = plan_backfill("2026-05-04T12:00:00Z", "2026-05-06T11:59:59Z").unwrap();
    assert_eq!(
        plan.run_ids,
        vec!["backfill-2026-05-04", "backfill-2026-05-05", "backfill-2026-05-06"]
    );
    let plan = plan_backfill("2026-05-04T12:00:00Z", "2026-05-05").unwrap();
    assert_eq!(plan.run_ids, vec!["backfill-2026-05-04", "backfill-2026-05-05"]);
    let plan = plan_backfill("1969-12-31T23:59:59Z", "1970-01-01").unwrap();
    assert_eq!(plan.run_ids, vec!["backfill-1969-12-31", "backfill-1970-01-01"]);
}

#[test]
fn backfill_run_ids_differ() {
    let plan = plan_backfill("2023-12-01", "2025-01-31").unwrap();
    assert_eq!(plan.run_ids.len(), 428);
    let mut ids = plan.run_ids.clone();
    ids.sort();
    ids.dedup();
    assert_eq!(ids.len(), 428);
}

#[test]
fn backfill_refusals() {
    assert_eq!(
        plan_backfill("nope", "never").unwrap_err(),
        BackfillError::BadStart("nope".to_string())
    );
    assert_eq!(
        plan_backfill("2026-05-04", "never").unwrap_err(),
        BackfillError::BadEnd("never".to_string())
    );
    let err = plan_backfill("2026-05-04", "2026-05-03").unwrap_err();
    match err {
        BackfillError::EndBeforeStart { start, end } => assert_eq!(
            end_before_start_message(&start, &end),
            "--end (2026-05-03 00:00:00 UTC) is before --start (2026-05-04 00:00:00 UTC)"
        ),
        _ => panic!("the order of the dates was not noticed"),
    }
}

#[test]
fn backfill_reaches_the_ends_of_time() {
    let end = instant(LAST_SECOND, 1999999999);
    let start = instant(LAST_SECOND - DAY, 5);
    let last = instant(LAST_SECOND + 1 - DAY, 0);
    assert_eq!(
        backfill_days(start, end).unwrap(),
        vec![instant(last.seconds - DAY, 0), last]
    );
    assert_eq!(plan_days(start, end).unwrap().run_ids.len(), 2);
    let first = instant(FIRST_SECOND, 7);
    assert_eq!(backfill_days(first, first).unwrap(), vec![instant(FIRST_SECOND, 0)]);
}

#[test]
fn leap_second_belongs_to_its_day() {
    let start = instant(1483228799, 1500000000);
    let end = instant(1483228799 + DAY, 600000000);
    assert_eq!(
        backfill_days(start, end).unwrap(),
        vec![instant(1483142400, 0), instant(1483228800, 0)]
    );
    assert_eq!(start.start_of_day(), instant(1483142400, 0));
    assert_eq!(instant(-1, 5).start_of_day(), instant(-DAY, 0));
}

#[test]
fn backfill_stops_at_a_run_that_did_not_succeed() {
    let mut report = RunReport {
        run_id: "r".to_string(),
        task_states: OrderedMap::new(),
        task_outputs: OrderedMap::new(),
        topo_order: Vec::new(),
    };
    assert_eq!(settle_run("r", &report), Ok(()));
    report.task_states.insert("b\"".to_string(), TaskState::Failed);
    report.task_states.insert("a".to_string(), TaskState::Succeeded);
    assert_eq!(
        settle_run("backfill-2026-05-04", &report).unwrap_err(),
        "backfill run backfill-2026-05-04 did not succeed \
         (states: {\"a\": Succeeded, \"b\\\"\": Failed})"
    );
    assert_eq!(run_failure_message("r", "x"), "backfill run r did not succeed (states: {x})");
}

#[test]
fn lineage_is_told_as_json() {
    let up = vec!["a".to_string(), "x".to_string()];
    assert_eq!(
        lineage_json(None, "b", &up, &Vec::new()).text(),
        "{\"downstream\":[],\"run_id\":null,\"task_id\":\"b\",\"upstream\":[\"a\",\"x\"]}"
    );
    assert_eq!(
        lineage_json(Some("r1"), "b", &Vec::new(), &up).text(),
        "{\"downstream\":[\"a\",\"x\"],\"run_id\":\"r1\",\"task_id\":\"b\",\"upstream\":[]}"
    );
}

#[test]
fn run_ids() {
    assert_eq!(backfill_run_id(&instant(0, 0)), "backfill-1970-01-01");
    assert_eq!(run_id_or(Some("mine".to_string()), 5), "mine");
    assert_eq!(run_id_or(None, 1777896000000001), "run-1777896000000001");
    assert_eq!(run_id_or(None, -5), "run--5");
}
