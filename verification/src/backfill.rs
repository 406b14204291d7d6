//! Backfills: a run for each day of a range.
use vstd::prelude::*;

use crate::report::{every_task_succeeded, RunReport};
use crate::spec::texts;
use crate::state::TaskState;
use crate::text::{append_decimal, decimal};
use crate::time::{
    add_days, date_read, day_start, formatted, parse_date, rfc3339_instant, shown, Timestamp, DAY,
    YEAR_9999_END, YEAR_ZERO,
};

verus! {

/// The start of the `k`th day from that of `start` on.
pub open spec fn nth_day(start: Timestamp, k: int) -> (int, int) {
    (start.midnight() + k * DAY, 0)
}

/// How many days there are from that of `start` to that of `end`, both included.
pub open spec fn day_count(start: Timestamp, end: Timestamp) -> int {
    (end.midnight() - start.midnight()) / (DAY as int) + 1
}

/// Days are numbered by their seconds: there is one for each number from that of
/// the start to that of the end, and each begins at the midnight of its number.
pub proof fn days_are_numbered(start: Timestamp, end: Timestamp, k: int)
    ensures
        day_count(start, end) == end.seconds as int / 86400 - start.seconds as int / 86400 + 1,
        nth_day(start, k) == ((start.seconds as int / 86400 + k) * 86400, 0int),
{
    let first = start.seconds as int / 86400;
    let last = end.seconds as int / 86400;
    assert(start.midnight() == first * 86400);
    assert(end.midnight() == last * 86400);
    assert(start.midnight() + k * DAY == (first + k) * 86400) by (nonlinear_arith)
        requires
            start.midnight() == first * 86400,
            DAY == 86400,
    ;
    assert((last * 86400 - first * 86400) / 86400 == last - first);
}

/// Why there is no backfill.
#[derive(Debug, PartialEq, Eq)]
pub enum BackfillError {
    /// The end comes before the start.
    EndBeforeStart { start: Timestamp, end: Timestamp },
    /// The start is no date.
    BadStart(String),
    /// The end is no date.
    BadEnd(String),
}

/// The days from that of `start` to that of `end`, both included, by their
/// starts.
pub fn backfill_days(start: Timestamp, end: Timestamp) -> (days: Result<
    Vec<Timestamp>,
    BackfillError,
>)
    requires
        start.wf(),
        end.wf(),
    ensures
        match days {
            Ok(days) => {
                &&& start.at_most(end)
                &&& days@.len() == day_count(start, end)
                &&& forall|k: int|
                    0 <= k < days@.len() ==> (#[trigger] days@[k]).wf() && days@[k].parts()
                        == nth_day(start, k)
            },
            Err(error) => !start.at_most(end) && error == (BackfillError::EndBeforeStart {
                start,
                end,
            }),
        },
        days is Ok <==> start.seconds < end.seconds || (start.seconds == end.seconds && start.nanos
            <= end.nanos),
        days matches Ok(days) ==> {
            &&& days@.len() == end.seconds as int / 86400 - start.seconds as int / 86400 + 1
            &&& forall|k: int|
                0 <= k < days@.len() ==> (#[trigger] days@[k]).nanos == 0 && days@[k].seconds == (
                start.seconds as int / 86400 + k) * 86400
        },
{
    proof {
        days_are_numbered(start, end, 0);
        assert forall|k: int| #[trigger] nth_day(start, k) == (
            (start.seconds as int / 86400 + k) * 86400,
            0int,
        ) by {
            days_are_numbered(start, end, k);
        }
    }
    if !start.is_at_most(&end) {
        return Err(BackfillError::EndBeforeStart { start, end });
    }
    let last = end.start_of_day();
    let mut cursor = start.start_of_day();
    let mut days: Vec<Timestamp> = Vec::new();
    days.push(cursor);
    while cursor.seconds < last.seconds
        invariant
            cursor.wf(),
            last.wf(),
            last.seconds == end.midnight(),
            cursor.seconds <= last.seconds,
            days@.len() > 0,
            cursor.parts() == nth_day(start, days@.len() - 1),
            forall|k: int|
                0 <= k < days@.len() ==> (#[trigger] days@[k]).wf() && days@[k].parts()
                    == nth_day(start, k),
        decreases last.seconds - cursor.seconds,
    {
        let ghost count = days@.len() as int;
        proof {
            let day = DAY as int;
            assert((start.midnight() + (count - 1) * day) % day == 0) by (nonlinear_arith)
                requires
                    day == 86400,
                    start.midnight() % day == 0,
            ;
            assert(count * day == (count - 1) * day + day) by (nonlinear_arith);
        }
        cursor = add_days(&cursor, 1);
        days.push(cursor);
    }
    proof {
        let day = DAY as int;
        let count = days@.len() as int;
        assert(((count - 1) * day) / day == count - 1) by (nonlinear_arith)
            requires
                day == 86400,
        ;
    }
    Ok(days)
}

/// The form in which a day is written.
pub open spec fn day_form() -> Seq<char> {
    "%Y-%m-%d"@
}

/// The id of the run for the day of an instant.
pub open spec fn run_id_text(instant: (int, int)) -> Seq<char> {
    "backfill-"@ + formatted(instant.0, instant.1, day_form())
}

/// The id of the run for the day of an instant. Where the year has four digits
/// and no sign, it ends with a text that names the day.
pub fn backfill_run_id(day: &Timestamp) -> (id: String)
    requires
        day.wf(),
    ensures
        id@ == run_id_text(day.parts()),
        id@ == "backfill-"@ + formatted(day.seconds as int, day.nanos as int, "%Y-%m-%d"@),
        day.in_four_digit_year() ==> day_start(id@.skip("backfill-"@.len() as int), day_form())
            == Some(day.midnight()),
{
    let day_text = day.day_text();
    let mut id = "backfill-".to_owned();
    id.append(day_text.as_str());
    assert(id@.skip("backfill-"@.len() as int) =~= day_text@);
    id
}

/// The runs of a backfill.
#[derive(Debug)]
pub struct BackfillPlan {
    pub start: Timestamp,
    pub end: Timestamp,
    /// The ids of the runs, day by day.
    pub run_ids: Vec<String>,
}

impl BackfillPlan {
    /// There is a run for each day from that of the start to that of the end, both
    /// included.
    pub open spec fn covers(self) -> bool {
        &&& self.run_ids@.len() == day_count(self.start, self.end)
        &&& forall|k: int|
            0 <= k < self.run_ids@.len() ==> (#[trigger] self.run_ids@[k])@ == run_id_text(
                nth_day(self.start, k),
            )
    }

    /// What is told once all runs have been made.
    pub open spec fn completed_text(self) -> Seq<char> {
        "OK: backfill complete \u{2014} "@ + decimal(self.run_ids@.len()) + " run(s) from "@
            + formatted(self.start.seconds as int, self.start.nanos as int, day_form()) + " to "@
            + formatted(self.end.seconds as int, self.end.nanos as int, day_form())
    }

    /// What is told once all runs have been made.
    pub fn completed_message(&self) -> (text: String)
        requires
            self.start.wf(),
            self.end.wf(),
        ensures
            text@ == self.completed_text(),
            text@ == "OK: backfill complete \u{2014} "@ + decimal(self.run_ids@.len())
                + " run(s) from "@ + formatted(
                self.start.seconds as int,
                self.start.nanos as int,
                "%Y-%m-%d"@,
            ) + " to "@ + formatted(self.end.seconds as int, self.end.nanos as int, "%Y-%m-%d"@),
    {
        let mut text = "OK: backfill complete \u{2014} ".to_owned();
        append_decimal(&mut text, self.run_ids.len() as u64);
        text.append(" run(s) from ");
        text.append(self.start.day_text().as_str());
        text.append(" to ");
        text.append(self.end.day_text().as_str());
        text
    }
}

/// Plans the backfill from the day of `start` to that of `end`, both included.
pub fn plan_days(start: Timestamp, end: Timestamp) -> (plan: Result<BackfillPlan, BackfillError>)
    requires
        start.wf(),
        end.wf(),
    ensures
        match plan {
            Ok(plan) => {
                &&& start.at_most(end)
                &&& plan.start == start
                &&& plan.end == end
                &&& plan.covers()
                &&& start.in_four_digit_year() && end.in_four_digit_year() ==> texts(
                    plan.run_ids@,
                ).no_duplicates()
            },
            Err(error) => !start.at_most(end) && error == (BackfillError::EndBeforeStart {
                start,
                end,
            }),
        },
        plan is Ok <==> start.seconds < end.seconds || (start.seconds == end.seconds && start.nanos
            <= end.nanos),
        plan matches Ok(plan) ==> {
            &&& plan.run_ids@.len() == end.seconds as int / 86400 - start.seconds as int / 86400 + 1
            &&& forall|k: int|
                0 <= k < plan.run_ids@.len() ==> (#[trigger] plan.run_ids@[k])@ == "backfill-"@
                    + formatted((start.seconds as int / 86400 + k) * 86400, 0, "%Y-%m-%d"@)
        },
{
    let days = match backfill_days(start, end) {
        Ok(days) => days,
        Err(error) => {
            return Err(error);
        },
    };
    let ghost skipped = "backfill-"@.len() as int;
    let mut run_ids: Vec<String> = Vec::new();
    for k in 0..days.len()
        invariant
            forall|j: int|
                0 <= j < days@.len() ==> (#[trigger] days@[j]).wf() && days@[j].parts()
                    == nth_day(start, j),
            skipped == "backfill-"@.len(),
            run_ids@.len() == k,
            forall|j: int|
                0 <= j < k ==> (#[trigger] run_ids@[j])@ == run_id_text(nth_day(start, j)),
            forall|j: int|
                0 <= j < days@.len() ==> (#[trigger] days@[j]).nanos == 0 && days@[j].seconds == (
                start.seconds as int / 86400 + j) * 86400,
            forall|j: int|
                0 <= j < k ==> (#[trigger] run_ids@[j])@ == "backfill-"@ + formatted(
                    (start.seconds as int / 86400 + j) * 86400,
                    0,
                    "%Y-%m-%d"@,
                ),
            forall|j: int|
                0 <= j < k && days@[j].in_four_digit_year() ==> day_start(
                    (#[trigger] run_ids@[j])@.skip(skipped),
                    day_form(),
                ) == Some(days@[j].midnight()),
    {
        run_ids.push(backfill_run_id(&days[k]));
    }
    proof {
        let names = texts(run_ids@);
        if start.in_four_digit_year() && end.in_four_digit_year() {
            assert forall|i: int, j: int|
                0 <= i < names.len() && 0 <= j < names.len() && i != j implies names[i]
                != names[j] by {
                lemma_day_is_in_years(start, end, i);
                lemma_day_is_in_years(start, end, j);
                assert(days@[i].parts() == nth_day(start, i));
                assert(days@[j].parts() == nth_day(start, j));
                assert(names[i] == run_ids@[i]@ && names[j] == run_ids@[j]@);
                assert(i * DAY != j * DAY) by (nonlinear_arith)
                    requires
                        i != j,
                ;
            }
        }
    }
    Ok(BackfillPlan { start, end, run_ids })
}

/// A day of a range starts at a midnight within the years of the range.
proof fn lemma_day_is_in_years(start: Timestamp, end: Timestamp, k: int)
    requires
        start.in_four_digit_year(),
        end.in_four_digit_year(),
        0 <= k < day_count(start, end),
    ensures
        YEAR_ZERO <= nth_day(start, k).0 <= YEAR_9999_END,
        nth_day(start, k).0 % (DAY as int) == 0,
{
    let day = DAY as int;
    let first = start.midnight();
    let last = end.midnight();
    assert((first + k * day) % day == 0) by (nonlinear_arith)
        requires
            day == 86400,
            first % day == 0,
    ;
    assert(k * day <= last - first) by (nonlinear_arith)
        requires
            day == 86400,
            0 <= k <= (last - first) / day,
    ;
    assert(k * day >= 0) by (nonlinear_arith)
        requires
            day == 86400,
            k >= 0,
    ;
}

/// The instant that a text names as a date.
pub open spec fn date_named(text: Seq<char>) -> Option<(int, int)> {
    date_read(day_start(text, day_form()), rfc3339_instant(text))
}

/// A date is read as a day, at its start, and only where it is none as an
/// instant.
pub proof fn dates_are_days_first(text: Seq<char>)
    ensures
        day_start(text, "%Y-%m-%d"@) matches Some(seconds) ==> date_named(text) == Some(
            (seconds, 0int),
        ),
        day_start(text, "%Y-%m-%d"@) is None ==> date_named(text) == rfc3339_instant(text),
{
}

/// Plans the backfill between two dates, both included.
pub fn plan_backfill(start: &str, end: &str) -> (plan: Result<BackfillPlan, BackfillError>)
    ensures
        match plan {
            Ok(plan) => {
                &&& date_named(start@) == Some(plan.start.parts())
                &&& date_named(end@) == Some(plan.end.parts())
                &&& plan.start.wf()
                &&& plan.end.wf()
                &&& plan.start.at_most(plan.end)
                &&& plan.covers()
                &&& plan.start.in_four_digit_year() && plan.end.in_four_digit_year() ==> texts(
                    plan.run_ids@,
                ).no_duplicates()
            },
            Err(BackfillError::BadStart(text)) => text@ == start@ && date_named(start@) is None,
            Err(BackfillError::BadEnd(text)) => {
                &&& text@ == end@
                &&& date_named(start@) is Some
                &&& date_named(end@) is None
            },
            Err(BackfillError::EndBeforeStart { start: first, end: last }) => {
                &&& date_named(start@) == Some(first.parts())
                &&& date_named(end@) == Some(last.parts())
                &&& first.wf()
                &&& last.wf()
                &&& !first.at_most(last)
            },
        },
        plan matches Ok(plan) ==> {
            let first = plan.start.seconds as int / 86400;
            &&& plan.run_ids@.len() == plan.end.seconds as int / 86400 - first + 1
            &&& forall|k: int|
                0 <= k < plan.run_ids@.len() ==> (#[trigger] plan.run_ids@[k])@ == "backfill-"@
                    + formatted((first + k) * 86400, 0, "%Y-%m-%d"@)
        },
        plan matches Err(BackfillError::EndBeforeStart { start: first, end: last })
            ==> last.seconds < first.seconds || (last.seconds == first.seconds && last.nanos
            < first.nanos),
{
    let first = match parse_date(start) {
        Ok(first) => first,
        Err(bad) => {
            return Err(BackfillError::BadStart(bad.text));
        },
    };
    let last = match parse_date(end) {
        Ok(last) => last,
        Err(bad) => {
            return Err(BackfillError::BadEnd(bad.text));
        },
    };
    plan_days(first, last)
}

/// The message where the end of a backfill comes before its start.
pub fn end_before_start_message(start: &Timestamp, end: &Timestamp) -> (text: String)
    requires
        start.wf(),
        end.wf(),
    ensures
        text@ == "--end ("@ + shown(end.seconds as int, end.nanos as int)
            + ") is before --start ("@ + shown(start.seconds as int, start.nanos as int) + ")"@,
{
    let mut text = "--end (".to_owned();
    text.append(end.to_text().as_str());
    text.append(") is before --start (");
    text.append(start.to_text().as_str());
    text.append(")");
    text
}

/// The text that the `Debug` of a string shows.
pub uninterp spec fn debug_text(text: Seq<char>) -> Seq<char>;

/// `format!` of a string by its `Debug`: in quotes, with what cannot be shown
/// escaped.
#[verifier::external_body]
fn show_debug(text: &str) -> (shown: String)
    ensures
        shown@ == debug_text(text@),
{
    format!("{text:?}")
}

/// The states of tasks, task by task.
pub open spec fn states_listed(names: Seq<Seq<char>>, states: Map<Seq<char>, TaskState>) -> Seq<
    char,
>
    decreases names.len(),
{
    if names.len() == 0 {
        Seq::empty()
    } else {
        let one = debug_text(names.last()) + ": "@ + states[names.last()].label();
        if names.len() == 1 {
            one
        } else {
            states_listed(names.drop_last(), states) + ", "@ + one
        }
    }
}

/// The message where a run of a backfill did not succeed.
pub open spec fn run_failure(run_id: Seq<char>, states: Seq<char>) -> Seq<char> {
    "backfill run "@ + run_id + " did not succeed (states: {"@ + states + "})"@
}

/// The states come task by task, each after the id of its task, with commas
/// between.
pub proof fn states_are_listed_one_by_one(names: Seq<Seq<char>>, states: Map<Seq<char>, TaskState>)
    requires
        names.len() > 0,
    ensures
        ", "@ + states_listed(names, states) == Seq::new(
            names.len(),
            |k: int| ", "@ + debug_text(names[k]) + ": "@ + states[names[k]].label(),
        ).flatten(),
    decreases names.len(),
{
    let parts = Seq::new(
        names.len(),
        |k: int| ", "@ + debug_text(names[k]) + ": "@ + states[names[k]].label(),
    );
    parts.lemma_flatten_and_flatten_alt_are_equivalent();
    let front = names.drop_last();
    let before = Seq::new(
        front.len(),
        |k: int| ", "@ + debug_text(front[k]) + ": "@ + states[front[k]].label(),
    );
    before.lemma_flatten_and_flatten_alt_are_equivalent();
    assert(parts.drop_last() =~= before);
    if names.len() == 1 {
        assert(before.flatten_alt() =~= Seq::empty());
        assert(", "@ + states_listed(names, states) =~= parts.flatten_alt());
    } else {
        states_are_listed_one_by_one(front, states);
        assert(", "@ + states_listed(names, states) =~= parts.flatten_alt());
    }
}

/// Writes the message where a run of a backfill did not succeed.
pub fn run_failure_message(run_id: &str, states: &str) -> (text: String)
    ensures
        text@ == run_failure(run_id@, states@),
        text@ == "backfill run "@ + run_id@ + " did not succeed (states: {"@ + states@ + "})"@,
{
    let mut text = "backfill run ".to_owned();
    text.append(run_id);
    text.append(" did not succeed (states: {");
    text.append(states);
    text.append("})");
    text
}

/// Says whether the backfill goes on after a run: it stops at the first in which
/// not every task succeeded.
pub fn settle_run(run_id: &str, report: &RunReport) -> (settled: Result<(), String>)
    requires
        report.wf(),
    ensures
        match settled {
            Ok(()) => every_task_succeeded(report.task_states@),
            Err(message) => {
                &&& !every_task_succeeded(report.task_states@)
                &&& message@ == run_failure(
                    run_id@,
                    states_listed(report.task_states.keys(), report.task_states@),
                )
            },
        },
        settled is Ok <==> forall|id: Seq<char>| #[trigger]
            report.task_states@.contains_key(id) ==> report.task_states@[id] is Succeeded,
        settled matches Err(message) ==> message@ == "backfill run "@ + run_id@
            + " did not succeed (states: {"@ + states_listed(
            report.task_states.keys(),
            report.task_states@,
        ) + "})"@,
{
    if report.all_succeeded() {
        return Ok(());
    }
    let ghost names = report.task_states.keys();
    let ghost states = report.task_states@;
    let count: usize = report.task_states.len();
    let mut listed = String::new();
    assert(listed@ =~= states_listed(names.take(0), states));
    for k in 0..count
        invariant
            report.wf(),
            count == names.len(),
            names == report.task_states.keys(),
            states == report.task_states@,
            listed@ == states_listed(names.take(k as int), states),
    {
        let ghost before = listed@;
        if k > 0 {
            listed.append(", ");
        }
        let (id, state) = report.task_states.entry(k);
        listed.append(show_debug(id.as_str()).as_str());
        listed.append(": ");
        listed.append(state.as_label());
        proof {
            let more = names.take(k + 1);
            assert(more.drop_last() =~= names.take(k as int));
            assert(more.last() == id@);
            assert(listed@ =~= states_listed(more, states));
        }
    }
    assert(names.take(names.len() as int) =~= names);
    Err(run_failure_message(run_id, listed.as_str()))
}

} // verus!
