use dagflow::scheduler::{settle_fire, DagScheduler, JobReply, SchedulerError};
use dagflow::time::Timestamp;
use tokio_cron_scheduler::{Job, JobScheduler};

fn timestamp(t: chrono::DateTime<chrono::Utc>) -> Timestamp {
    Timestamp { seconds: t.timestamp(), nanos: t.timestamp_subsec_nanos() }
}

fn now() -> Timestamp {
    timestamp(chrono::Utc::now())
}

fn at(text: &str) -> Timestamp {
    Timestamp::from_rfc3339(text).unwrap()
}

fn block_on<F: std::future::Future>(future: F) -> F::Output {
    tokio::runtime::Builder::new_multi_thread()
        .worker_threads(2)
        .enable_all()
        .build()
        .unwrap()
        .block_on(future)
}

async fn ask(inner: &JobScheduler, cron: &str) -> JobReply {
    match Job::new_async(cron, |_, _| Box::pin(async {})) {
        Ok(job) => match inner.add(job).await {
            Ok(id) => JobReply::Registered(id.as_u128()),
            Err(_) => JobReply::NotRegistered,
        },
        Err(_) => JobReply::InvalidCron,
    }
}

fn scheduled(cron: &str) -> DagScheduler {
    let mut sched = DagScheduler::new();
    sched
        .schedule("job".to_string(), cron.to_string(), JobReply::Registered(7))
        .unwrap();
    sched
}

#[test]
fn schedule_and_unschedule_roundtrip() {
    block_on(async {
        let inner = JobScheduler::new().await.unwrap();
        let mut sched = DagScheduler::new();
        let reply = ask(&inner, "0 0 6 * * *").await;
        let id = sched
            .schedule("etl-daily".to_string(), "0 0 6 * * *".to_string(), reply)
            .unwrap();
        assert_eq!(sched.job_count(), 1);
        assert_eq!(sched.dag_name(id).unwrap(), "etl-daily");
        sched.begin_unschedule(id).unwrap();
        let removed = inner.remove(&uuid::Uuid::from_u128(id)).await.is_ok();
        sched.unschedule(id, removed).unwrap();
        assert_eq!(sched.job_count(), 0);
    });
}

#[test]
fn unschedule_unknown_errors() {
    let mut sched = DagScheduler::new();
    let bogus = uuid::Uuid::new_v4();
    let err = sched.begin_unschedule(bogus.as_u128()).unwrap_err();
    assert!(err.message().contains("unknown job id"));
    let err = sched.unschedule(bogus.as_u128(), true).unwrap_err();
    assert!(err.message().contains("unknown job id"));
}

#[test]
fn invalid_cron_rejected() {
    block_on(async {
        let inner = JobScheduler::new().await.unwrap();
        let mut sched = DagScheduler::new();
        let reply = ask(&inner, "this is not cron").await;
        let r = sched.schedule("bad".to_string(), "this is not cron".to_string(), reply);
        assert!(r.is_err(), "expected invalid cron to error");
    });
}

#[test]
fn next_fire_returns_a_future_time() {
    let sched = scheduled("0 0 6 * * *");
    let fire = sched.next_fire(7, &now()).unwrap();
    let fire = fire.expect("daily-6am cron must have a future fire time");
    assert!(!fire.is_at_most(&now()), "next fire must be in the future");
}

#[test]
fn next_fire_at_given_instants() {
    let sched = scheduled("0 0 6 * * *");
    assert_eq!(
        sched.next_fire(7, &at("2026-05-04T05:59:59.5Z")).unwrap(),
        Some(at("2026-05-04T06:00:00Z"))
    );
    assert_eq!(
        sched.next_fire(7, &at("2026-05-04T06:00:00Z")).unwrap(),
        Some(at("2026-05-05T06:00:00Z"))
    );
    assert_eq!(
        scheduled("0 0 0 1 1 * 2020").next_fire(7, &at("2026-05-04T06:00:00Z")).unwrap(),
        None
    );
}

#[test]
fn unreadable_cron_is_told() {
    let sched = scheduled("this is not cron");
    let err = sched.next_fire(7, &now()).unwrap_err();
    assert_eq!(err, SchedulerError::UnreadableCron { cron: "this is not cron".to_string() });
    assert_eq!(err.message(), "re-parsing cron 'this is not cron' failed");
}

#[test]
fn found_fires_are_handed_on() {
    let t = at("2026-05-04T06:00:00Z");
    assert_eq!(settle_fire("c", Some(Some(t))), Ok(Some(t)));
    assert_eq!(settle_fire("c", Some(None)), Ok(None));
    assert_eq!(
        settle_fire("c", None),
        Err(SchedulerError::UnreadableCron { cron: "c".to_string() })
    );
}

#[test]
fn refused_jobs_are_not_kept() {
    let mut sched = DagScheduler::new();
    let err = sched
        .schedule("d".to_string(), "x".to_string(), JobReply::InvalidCron)
        .unwrap_err();
    assert_eq!(err.message(), "invalid cron expression: x");
    let err = sched
        .schedule("d".to_string(), "x".to_string(), JobReply::NotRegistered)
        .unwrap_err();
    assert_eq!(err.message(), "failed to register job with scheduler");
    assert_eq!(sched.job_count(), 0);
}

#[test]
fn job_that_was_not_taken_off_stays() {
    let mut sched = scheduled("0 0 6 * * *");
    let err = sched.unschedule(7, false).unwrap_err();
    assert_eq!(err, SchedulerError::NotRemoved);
    assert_eq!(err.message(), "failed to remove job from scheduler");
    assert_eq!(sched.job_count(), 1);
    sched.unschedule(7, true).unwrap();
    assert_eq!(sched.job_count(), 0);
    assert_eq!(sched.unschedule(7, true), Err(SchedulerError::UnknownJob(7)));
    assert_eq!(sched.unschedule(7, false), Err(SchedulerError::UnknownJob(7)));
    assert_eq!(sched.dag_name(7), Err(SchedulerError::UnknownJob(7)));
    assert_eq!(sched.next_fire(7, &now()), Err(SchedulerError::UnknownJob(7)));
}

#[test]
fn unknown_jobs_are_named() {
    assert_eq!(
        SchedulerError::UnknownJob(0x0123456789abcdef0011223344556677).message(),
        "unknown job id: 01234567-89ab-cdef-0011-223344556677"
    );
}
