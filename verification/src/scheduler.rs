//! Which jobs are scheduled, and when they fire.
use std::collections::HashMap;
use vstd::prelude::*;

use crate::json::hex_digit;
use crate::time::{Timestamp, LAST_SECOND};

verus! {

#[verifier::external_type_specification]
#[verifier::external_body]
pub struct ExCronError(cron::error::Error);

/// Errors of [`DagScheduler`].
#[derive(Debug, PartialEq, Eq)]
pub enum SchedulerError {
    /// No job has the id.
    UnknownJob(u128),
    /// No job can be made of the cron expression.
    InvalidCron { cron: String },
    /// The job was not taken on.
    NotRegistered,
    /// The job was not taken off.
    NotRemoved,
    /// The cron expression of a job cannot be read again.
    UnreadableCron { cron: String },
}

/// What is known of a job.
#[derive(Debug)]
pub struct JobMeta {
    pub dag_name: String,
    pub cron: String,
}

/// What the ticking scheduler answered when it was given a job.
#[derive(Clone, Copy, Debug, PartialEq, Eq, Structural)]
pub enum JobReply {
    /// The job was taken on under this id.
    Registered(u128),
    /// No job can be made of the cron expression.
    InvalidCron,
    /// The job was not taken on.
    NotRegistered,
}

/// The jobs that are scheduled, by their ids.
#[derive(Debug)]
pub struct DagScheduler {
    by_id: HashMap<u128, JobMeta>,
}

/// A number in hexadecimal with `width` digits.
pub open spec fn hex(n: nat, width: nat) -> Seq<char>
    decreases width,
{
    if width == 0 {
        Seq::empty()
    } else {
        hex(n / 16, (width - 1) as nat).push(hex_digit(n % 16))
    }
}

/// A job id as people see it: 32 hexadecimal digits in groups of 8, 4, 4, 4 and
/// 12 with hyphens between.
pub open spec fn job_id_text(id: nat) -> Seq<char> {
    let digits = hex(id, 32);
    digits.subrange(0, 8) + "-"@ + digits.subrange(8, 12) + "-"@ + digits.subrange(12, 16) + "-"@
        + digits.subrange(16, 20) + "-"@ + digits.subrange(20, 32)
}

/// When a cron expression next matches after an instant, if it does; nothing
/// where the expression cannot be read. This is what `cron::Schedule::from_str`
/// and the first step of `cron::Schedule::after` answer.
pub uninterp spec fn cron_fire(cron: Seq<char>, seconds: int, nanos: int) -> Option<
    Option<(int, int)>,
>;

/// `to_string` of a `uuid::Uuid` made of a number.
#[verifier::external_body]
fn write_job_id(id: u128) -> (text: String)
    ensures
        text@ == job_id_text(id as nat),
{
    uuid::Uuid::from_u128(id).to_string()
}

/// `cron::Schedule::from_str`, and the first instant that `cron::Schedule::after`
/// lists, which comes after `now`. The search starts one second after `now`, and
/// panics where `chrono` cannot hold that.
#[verifier::external_body]
fn find_fire(cron: &str, now: &Timestamp) -> (fire: Result<Option<Timestamp>, cron::error::Error>)
    requires
        now.wf(),
        now.seconds < LAST_SECOND,
    ensures
        cron_fire(cron@, now.seconds as int, now.nanos as int) == match fire {
            Ok(Some(instant)) => Some(Some(instant.parts())),
            Ok(None) => Some(None),
            Err(_) => None,
        },
        fire matches Ok(Some(instant)) ==> instant.wf() && !instant.at_most(*now),
{
    let schedule: cron::Schedule = cron.parse()?;
    let now = chrono::DateTime::from_timestamp(now.seconds, now.nanos).unwrap();
    Ok(schedule.after(&now).next().map(
        |t| Timestamp { seconds: t.timestamp(), nanos: t.timestamp_subsec_nanos() },
    ))
}

impl View for DagScheduler {
    type V = Map<u128, JobMeta>;

    closed spec fn view(&self) -> Map<u128, JobMeta> {
        self.by_id@
    }
}

impl SchedulerError {
    /// The message for people.
    pub open spec fn text(self) -> Seq<char> {
        match self {
            SchedulerError::UnknownJob(id) => "unknown job id: "@ + job_id_text(id as nat),
            SchedulerError::InvalidCron { cron } => "invalid cron expression: "@ + cron@,
            SchedulerError::NotRegistered => "failed to register job with scheduler"@,
            SchedulerError::NotRemoved => "failed to remove job from scheduler"@,
            SchedulerError::UnreadableCron { cron } => "re-parsing cron '"@ + cron@ + "' failed"@,
        }
    }

    /// The message for people.
    pub fn message(&self) -> (text: String)
        ensures
            text@ == self.text(),
            match *self {
                SchedulerError::UnknownJob(id) => text@ == "unknown job id: "@ + job_id_text(
                    id as nat,
                ),
                SchedulerError::InvalidCron { cron } => text@ == "invalid cron expression: "@
                    + cron@,
                SchedulerError::NotRegistered => text@ == "failed to register job with scheduler"@,
                SchedulerError::NotRemoved => text@ == "failed to remove job from scheduler"@,
                SchedulerError::UnreadableCron { cron } => text@ == "re-parsing cron '"@ + cron@
                    + "' failed"@,
            },
    {
        match self {
            SchedulerError::UnknownJob(id) => {
                let mut text = "unknown job id: ".to_owned();
                text.append(write_job_id(*id).as_str());
                text
            },
            SchedulerError::InvalidCron { cron } => {
                let mut text = "invalid cron expression: ".to_owned();
                text.append(cron.as_str());
                text
            },
            SchedulerError::NotRegistered => "failed to register job with scheduler".to_owned(),
            SchedulerError::NotRemoved => "failed to remove job from scheduler".to_owned(),
            SchedulerError::UnreadableCron { cron } => {
                let mut text = "re-parsing cron '".to_owned();
                text.append(cron.as_str());
                text.append("' failed");
                text
            },
        }
    }
}

/// The fire time that a search found, or the error where the expression could
/// not be read.
pub fn settle_fire(
    cron: &str,
    found: Option<Option<Timestamp>>,
) -> (fire: Result<Option<Timestamp>, SchedulerError>)
    ensures
        match found {
            Some(found) => fire == Ok::<Option<Timestamp>, SchedulerError>(found),
            None => fire matches Err(SchedulerError::UnreadableCron { cron: unread }) && unread@
                == cron@,
        },
{
    match found {
        Some(found) => Ok(found),
        None => Err(SchedulerError::UnreadableCron { cron: cron.to_owned() }),
    }
}

impl DagScheduler {
    /// A scheduler without jobs.
    pub fn new() -> (scheduler: Self)
        ensures
            scheduler@ == Map::<u128, JobMeta>::empty(),
            scheduler@.dom().finite(),
    {
        broadcast use vstd::std_specs::hash::group_hash_axioms;

        DagScheduler { by_id: HashMap::new() }
    }

    /// Notes the job that the ticking scheduler was given, by its reply.
    pub fn schedule(&mut self, dag_name: String, cron: String, reply: JobReply) -> (scheduled:
        Result<u128, SchedulerError>)
        ensures
            final(self)@.dom().finite(),
            match reply {
                JobReply::Registered(id) => {
                    &&& scheduled == Ok::<u128, SchedulerError>(id)
                    &&& final(self)@ == old(self)@.insert(id, JobMeta { dag_name, cron })
                },
                JobReply::InvalidCron => {
                    &&& scheduled == Err::<u128, SchedulerError>(
                        SchedulerError::InvalidCron { cron },
                    )
                    &&& final(self)@ == old(self)@
                },
                JobReply::NotRegistered => {
                    &&& scheduled == Err::<u128, SchedulerError>(SchedulerError::NotRegistered)
                    &&& final(self)@ == old(self)@
                },
            },
    {
        broadcast use vstd::std_specs::hash::group_hash_axioms;

        match reply {
            JobReply::Registered(id) => {
                self.by_id.insert(id, JobMeta { dag_name, cron });
                Ok(id)
            },
            JobReply::InvalidCron => Err(SchedulerError::InvalidCron { cron }),
            JobReply::NotRegistered => Err(SchedulerError::NotRegistered),
        }
    }

    /// Whether the ticking scheduler may be asked to take the job off.
    pub fn begin_unschedule(&self, id: u128) -> (known: Result<(), SchedulerError>)
        ensures
            known == (if self@.contains_key(id) {
                Ok::<(), SchedulerError>(())
            } else {
                Err(SchedulerError::UnknownJob(id))
            }),
    {
        broadcast use vstd::std_specs::hash::group_hash_axioms;

        if self.by_id.contains_key(&id) {
            Ok(())
        } else {
            Err(SchedulerError::UnknownJob(id))
        }
    }

    /// Forgets the job once the ticking scheduler has taken it off. A job that is
    /// not there is unknown, whatever the ticking scheduler says.
    pub fn unschedule(&mut self, id: u128, removed: bool) -> (unscheduled: Result<
        (),
        SchedulerError,
    >)
        ensures
            final(self)@.dom().finite(),
            unscheduled == (if !old(self)@.contains_key(id) {
                Err::<(), SchedulerError>(SchedulerError::UnknownJob(id))
            } else if !removed {
                Err(SchedulerError::NotRemoved)
            } else {
                Ok(())
            }),
            final(self)@ == (if unscheduled is Ok {
                old(self)@.remove(id)
            } else {
                old(self)@
            }),
            unscheduled is Ok ==> final(self)@.len() == old(self)@.len() - 1,
    {
        broadcast use vstd::std_specs::hash::group_hash_axioms;

        if !self.by_id.contains_key(&id) {
            return Err(SchedulerError::UnknownJob(id));
        }
        if removed {
            self.by_id.remove(&id);
            Ok(())
        } else {
            assert(self@ =~= old(self)@);
            Err(SchedulerError::NotRemoved)
        }
    }

    /// When the job next fires after `now`, if it does.
    pub fn next_fire(&self, id: u128, now: &Timestamp) -> (fire: Result<
        Option<Timestamp>,
        SchedulerError,
    >)
        requires
            now.wf(),
            now.seconds < LAST_SECOND,
        ensures
            !self@.contains_key(id) ==> fire == Err::<Option<Timestamp>, SchedulerError>(
                SchedulerError::UnknownJob(id),
            ),
            self@.contains_key(id) ==> match cron_fire(
                self@[id].cron@,
                now.seconds as int,
                now.nanos as int,
            ) {
                Some(Some(parts)) => fire matches Ok(Some(instant)) && instant.parts() == parts,
                Some(None) => fire matches Ok(None),
                None => fire matches Err(SchedulerError::UnreadableCron { cron }) && cron@
                    == self@[id].cron@,
            },
            fire matches Ok(Some(instant)) ==> instant.wf() && !instant.at_most(*now),
    {
        broadcast use vstd::std_specs::hash::group_hash_axioms;

        match self.by_id.get(&id) {
            Some(meta) => {
                let found = match find_fire(meta.cron.as_str(), now) {
                    Ok(instant) => Some(instant),
                    Err(_) => None,
                };
                settle_fire(meta.cron.as_str(), found)
            },
            None => Err(SchedulerError::UnknownJob(id)),
        }
    }

    /// The name of the DAG that the job runs.
    pub fn dag_name(&self, id: u128) -> (name: Result<String, SchedulerError>)
        ensures
            name == (if self@.contains_key(id) {
                Ok::<String, SchedulerError>(self@[id].dag_name)
            } else {
                Err(SchedulerError::UnknownJob(id))
            }),
    {
        broadcast use vstd::std_specs::hash::group_hash_axioms;

        match self.by_id.get(&id) {
            Some(meta) => Ok(meta.dag_name.clone()),
            None => Err(SchedulerError::UnknownJob(id)),
        }
    }

    /// The number of jobs.
    pub fn job_count(&self) -> (count: usize)
        ensures
            self@.dom().finite(),
            count == self@.len(),
    {
        broadcast use vstd::std_specs::hash::group_hash_axioms;

        self.by_id.len()
    }
}

/// A job that is scheduled under a new id is one more, and taken off again it
/// leaves the scheduler as it was.
pub proof fn unschedule_undoes_schedule(jobs: Map<u128, JobMeta>, id: u128, meta: JobMeta)
    requires
        jobs.dom().finite(),
        !jobs.contains_key(id),
    ensures
        jobs.insert(id, meta).len() == jobs.len() + 1,
        jobs.insert(id, meta).remove(id) == jobs,
{
    assert(jobs.insert(id, meta).remove(id) =~= jobs);
}

} // verus!
