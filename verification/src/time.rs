//! Instants in UTC and their texts.
use vstd::prelude::*;

verus! {

#[verifier::external_type_specification]
#[verifier::external_body]
pub struct ExParseError(chrono::ParseError);

/// Seconds of the first instant that `chrono` can hold.
pub const FIRST_SECOND: i64 = -8334601228800;

/// Seconds of the last instant that `chrono` can hold.
pub const LAST_SECOND: i64 = 8210266876799;

/// Seconds of the start of the year 0.
pub const YEAR_ZERO: i64 = -62167219200;

/// Seconds of the end of the year 9999.
pub const YEAR_9999_END: i64 = 253402300799;

/// Seconds in a day.
pub const DAY: i64 = 86400;

/// Nanoseconds in a second.
pub const SECOND: u32 = 1000000000;

/// An instant in UTC: the seconds since the start of 1970, and the nanoseconds
/// since then. A leap second is told by a second's worth of nanoseconds more.
#[derive(Clone, Copy, Debug, PartialEq, Eq, Structural)]
pub struct Timestamp {
    pub seconds: i64,
    pub nanos: u32,
}

impl Timestamp {
    /// `chrono` can hold the instant.
    pub open spec fn wf(self) -> bool {
        &&& FIRST_SECOND <= self.seconds <= LAST_SECOND
        &&& self.nanos < SECOND || (self.nanos < 2 * SECOND && self.seconds % 60 == 59)
    }

    /// The year has four digits and no sign.
    pub open spec fn in_four_digit_year(self) -> bool {
        YEAR_ZERO <= self.seconds <= YEAR_9999_END
    }

    /// The instant is `other` or comes before it.
    pub open spec fn at_most(self, other: Timestamp) -> bool {
        self.seconds < other.seconds || (self.seconds == other.seconds && self.nanos
            <= other.nanos)
    }

    /// The seconds and the nanoseconds.
    pub open spec fn parts(self) -> (int, int) {
        (self.seconds as int, self.nanos as int)
    }

    /// The seconds of the start of the day.
    pub open spec fn midnight(self) -> int {
        self.seconds - self.seconds % DAY
    }

    /// The start of the day.
    pub fn start_of_day(&self) -> (start: Timestamp)
        requires
            self.wf(),
        ensures
            start.wf(),
            start.parts() == (self.midnight(), 0int),
            start.nanos == 0,
            start.seconds % 86400 == 0,
            start.seconds <= self.seconds < start.seconds + 86400,
    {
        let into_day: i64 = (self.seconds - FIRST_SECOND) % DAY;
        Timestamp { seconds: self.seconds - into_day, nanos: 0 }
    }

    /// Whether the instant is `other` or comes before it.
    pub fn is_at_most(&self, other: &Timestamp) -> (at_most: bool)
        ensures
            at_most == self.at_most(*other),
            at_most <==> self.seconds < other.seconds || (self.seconds == other.seconds
                && self.nanos <= other.nanos),
    {
        self.seconds < other.seconds || (self.seconds == other.seconds && self.nanos
            <= other.nanos)
    }
}

/// The instant that a text in the form of RFC 3339 names, if it is in that form,
/// as `chrono::DateTime::parse_from_rfc3339` reads it.
pub uninterp spec fn rfc3339_instant(text: Seq<char>) -> Option<(int, int)>;

/// The text that `chrono::DateTime::to_rfc3339` writes for an instant.
pub uninterp spec fn rfc3339_text(seconds: int, nanos: int) -> Seq<char>;

/// The seconds of the start of the day that a text in a given form names, if it
/// is in that form, as `chrono::NaiveDate::parse_from_str` reads it.
pub uninterp spec fn day_start(text: Seq<char>, form: Seq<char>) -> Option<int>;

/// The text that `chrono::DateTime::format` writes for an instant in a given
/// form.
pub uninterp spec fn formatted(seconds: int, nanos: int, form: Seq<char>) -> Seq<char>;

/// The text that `chrono::DateTime` shows for an instant.
pub uninterp spec fn shown(seconds: int, nanos: int) -> Seq<char>;

/// `chrono::DateTime::parse_from_rfc3339`, in UTC: the instant that the text
/// names, which is one that `chrono` can hold.
#[verifier::external_body]
fn read_rfc3339(text: &str) -> (read: Result<Timestamp, chrono::ParseError>)
    ensures
        rfc3339_instant(text@) == match read {
            Ok(instant) => Some(instant.parts()),
            Err(_) => None,
        },
        read matches Ok(instant) ==> instant.wf(),
{
    let instant = chrono::DateTime::parse_from_rfc3339(text)?;
    Ok(Timestamp { seconds: instant.timestamp(), nanos: instant.timestamp_subsec_nanos() })
}

/// `chrono::DateTime::to_rfc3339` in UTC. Where the year has four digits and no
/// sign, the text names the instant exactly; other years are written with a
/// sign, which RFC 3339 does not know.
#[verifier::external_body]
fn write_rfc3339(instant: &Timestamp) -> (text: String)
    requires
        instant.wf(),
    ensures
        text@ == rfc3339_text(instant.seconds as int, instant.nanos as int),
        instant.in_four_digit_year() ==> rfc3339_instant(text@) == Some(instant.parts()),
{
    chrono::DateTime::from_timestamp(instant.seconds, instant.nanos).unwrap().to_rfc3339()
}

/// `chrono::NaiveDate::parse_from_str`, at midnight in UTC.
#[verifier::external_body]
fn read_day(text: &str, form: &str) -> (read: Option<Timestamp>)
    ensures
        day_start(text@, form@) == match read {
            Some(instant) => Some(instant.seconds as int),
            None => None,
        },
        read matches Some(instant) ==> instant.wf() && instant.nanos == 0,
{
    let day = chrono::NaiveDate::parse_from_str(text, form).ok()?;
    let instant = day.and_hms_opt(0, 0, 0)?.and_utc();
    Some(Timestamp { seconds: instant.timestamp(), nanos: instant.timestamp_subsec_nanos() })
}

/// `chrono::DateTime::format` by year, month and day. Where the year has four
/// digits and no sign, the text names the day of the instant.
#[verifier::external_body]
fn write_day(instant: &Timestamp, form: &str) -> (text: String)
    requires
        instant.wf(),
        form@ == "%Y-%m-%d"@,
    ensures
        text@ == formatted(instant.seconds as int, instant.nanos as int, form@),
        instant.in_four_digit_year() ==> day_start(text@, form@) == Some(instant.midnight()),
{
    chrono::DateTime::from_timestamp(instant.seconds, instant.nanos).unwrap().format(form).to_string()
}

/// `to_string` of a `chrono::DateTime` in UTC.
#[verifier::external_body]
fn show(instant: &Timestamp) -> (text: String)
    requires
        instant.wf(),
    ensures
        text@ == shown(instant.seconds as int, instant.nanos as int),
{
    chrono::DateTime::from_timestamp(instant.seconds, instant.nanos).unwrap().to_string()
}

/// `chrono::DateTime` with `chrono::Duration::days` added: as many seconds more,
/// and the nanoseconds of a leap second less its extra second. It panics where
/// `chrono` cannot hold the sum.
#[verifier::external_body]
pub(crate) fn add_days(instant: &Timestamp, days: u8) -> (sum: Timestamp)
    requires
        instant.wf(),
        days > 0,
        instant.seconds + days * DAY <= LAST_SECOND,
    ensures
        sum.seconds == instant.seconds + days * DAY,
        sum.nanos == instant.nanos % SECOND,
{
    let sum = chrono::DateTime::from_timestamp(instant.seconds, instant.nanos).unwrap()
        + chrono::Duration::days(days.into());
    Timestamp { seconds: sum.timestamp(), nanos: sum.timestamp_subsec_nanos() }
}

/// A text that names no instant.
#[derive(Debug)]
pub struct BadDate {
    pub text: String,
}

impl Timestamp {
    /// The text of the instant in the form of RFC 3339.
    pub fn to_rfc3339(&self) -> (text: String)
        requires
            self.wf(),
        ensures
            text@ == rfc3339_text(self.seconds as int, self.nanos as int),
            self.in_four_digit_year() ==> rfc3339_instant(text@) == Some(self.parts()),
    {
        write_rfc3339(self)
    }

    /// The instant that a text in the form of RFC 3339 names.
    pub fn from_rfc3339(text: &str) -> (read: Result<Timestamp, BadDate>)
        ensures
            match read {
                Ok(instant) => instant.wf() && rfc3339_instant(text@) == Some(instant.parts()),
                Err(bad) => rfc3339_instant(text@) is None && bad.text@ == text@,
            },
    {
        match read_rfc3339(text) {
            Ok(instant) => Ok(instant),
            Err(_) => Err(BadDate { text: text.to_owned() }),
        }
    }

    /// The text of the instant for people.
    pub fn to_text(&self) -> (text: String)
        requires
            self.wf(),
        ensures
            text@ == shown(self.seconds as int, self.nanos as int),
    {
        show(self)
    }

    /// The text of the day: year, month and day with hyphens between.
    pub fn day_text(&self) -> (text: String)
        requires
            self.wf(),
        ensures
            text@ == formatted(self.seconds as int, self.nanos as int, "%Y-%m-%d"@),
            self.in_four_digit_year() ==> day_start(text@, "%Y-%m-%d"@) == Some(self.midnight()),
    {
        write_day(self, "%Y-%m-%d")
    }
}

/// The instant for a date, read as `day` or, where that fails, as `instant`.
pub open spec fn date_read(day: Option<int>, instant: Option<(int, int)>) -> Option<(int, int)> {
    match day {
        Some(seconds) => Some((seconds, 0)),
        None => instant,
    }
}

/// Takes the start of the day where the text was read as a day, and the instant
/// that it was read as otherwise.
pub fn choose_date(
    day: Option<Timestamp>,
    instant: Result<Timestamp, BadDate>,
) -> (date: Result<Timestamp, BadDate>)
    ensures
        date == match day {
            Some(start) => Ok(start),
            None => instant,
        },
{
    match day {
        Some(start) => Ok(start),
        None => instant,
    }
}

/// Reads a date: year, month and day, which stand for the start of the day, or
/// an instant in the form of RFC 3339.
pub fn parse_date(text: &str) -> (date: Result<Timestamp, BadDate>)
    ensures
        match date {
            Ok(instant) => {
                &&& instant.wf()
                &&& date_read(day_start(text@, "%Y-%m-%d"@), rfc3339_instant(text@)) == Some(
                    instant.parts(),
                )
            },
            Err(bad) => {
                &&& date_read(day_start(text@, "%Y-%m-%d"@), rfc3339_instant(text@)) is None
                &&& bad.text@ == text@
            },
        },
        day_start(text@, "%Y-%m-%d"@) matches Some(seconds) ==> (date matches Ok(instant)
            && instant.seconds == seconds && instant.nanos == 0),
        day_start(text@, "%Y-%m-%d"@) is None ==> match rfc3339_instant(text@) {
            Some(parts) => date matches Ok(instant) && instant.seconds == parts.0 && instant.nanos
                == parts.1,
            None => date matches Err(bad) && bad.text@ == text@,
        },
{
    choose_date(read_day(text, "%Y-%m-%d"), Timestamp::from_rfc3339(text))
}

} // verus!
