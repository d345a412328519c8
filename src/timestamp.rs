use vstd::prelude::*;
use vstd::string::*;

use chrono::{DateTime, Local, NaiveDateTime, SecondsFormat, TimeDelta, Utc};

use crate::error::ErrorKind;
use crate::text::concat_text;

verus! {

/// A UTC instant: whole seconds since 1970-01-01T00:00:00Z and the
/// nanoseconds within that second.
#[derive(Clone, Copy, Debug, PartialEq, Eq, Structural, PartialOrd, Ord, Hash)]
pub struct Timestamp {
    pub secs: i64,
    pub nanos: u32,
}

/// Chronological order of two instants.
pub open spec fn ts_lt(a: Timestamp, b: Timestamp) -> bool {
    a.secs < b.secs || (a.secs == b.secs && a.nanos < b.nanos)
}

pub open spec fn ts_le(a: Timestamp, b: Timestamp) -> bool {
    ts_lt(a, b) || a == b
}

impl Timestamp {
    /// `Less`, `Equal` or `Greater` as `self` is before, at or after `other`.
    pub fn compare(&self, other: &Timestamp) -> (r: core::cmp::Ordering)
        ensures
            (r == core::cmp::Ordering::Less) == ts_lt(*self, *other),
            (r == core::cmp::Ordering::Equal) == (*self == *other),
            (r == core::cmp::Ordering::Greater) == ts_lt(*other, *self),
    {
        if self.secs < other.secs {
            core::cmp::Ordering::Less
        } else if self.secs > other.secs {
            core::cmp::Ordering::Greater
        } else if self.nanos < other.nanos {
            core::cmp::Ordering::Less
        } else if self.nanos > other.nanos {
            core::cmp::Ordering::Greater
        } else {
            core::cmp::Ordering::Equal
        }
    }

    /// Whether `self` is at or before `other`.
    pub fn is_at_or_before(&self, other: &Timestamp) -> (r: bool)
        ensures
            r == ts_le(*self, *other),
    {
        self.secs < other.secs || (self.secs == other.secs && self.nanos <= other.nanos)
    }
}

/// The RFC 3339 text of an instant, as chrono writes it with automatic
/// sub-second digits and a `Z` suffix; `None` where chrono cannot represent it.
pub uninterp spec fn rfc3339_text_of(ts: Timestamp) -> Option<Seq<char>>;

/// The instant that chrono reads from an RFC 3339 text (relaxed: a space may
/// stand for the `T`), converted to UTC; `None` where it rejects the text.
pub uninterp spec fn rfc3339_value_of(s: Seq<char>) -> Option<Timestamp>;

/// The instant that chrono reads from a text in the pattern
/// `%Y-%m-%d %H:%M:%S`, taken as UTC; `None` where it rejects the text.
pub uninterp spec fn ymd_hms_value_of(s: Seq<char>) -> Option<Timestamp>;

/// Relies on chrono's `DateTime::from_timestamp` and
/// `DateTime::to_rfc3339_opts(SecondsFormat::AutoSi, true)`, the form in which
/// chrono serialises a `DateTime<Utc>`.
#[verifier::external_body]
pub(crate) fn rfc3339_text(ts: Timestamp) -> (r: Option<String>)
    ensures
        r matches Some(s) ==> rfc3339_text_of(ts) == Some(s@),
        r is None ==> rfc3339_text_of(ts) is None,
{
    match DateTime::from_timestamp(ts.secs, ts.nanos) {
        Some(d) => Some(d.to_rfc3339_opts(SecondsFormat::AutoSi, true)),
        None => None,
    }
}

/// Relies on chrono's `FromStr for DateTime<Utc>` and on
/// `DateTime::timestamp` / `DateTime::timestamp_subsec_nanos`.
#[verifier::external_body]
pub(crate) fn rfc3339_value(s: &str) -> (r: Option<Timestamp>)
    ensures
        r == rfc3339_value_of(s@),
{
    match s.parse::<DateTime<Utc>>() {
        Ok(d) => Some(Timestamp { secs: d.timestamp(), nanos: d.timestamp_subsec_nanos() }),
        Err(_) => None,
    }
}

/// Relies on chrono's `NaiveDateTime::parse_from_str` with the pattern
/// `%Y-%m-%d %H:%M:%S`, read as UTC by `NaiveDateTime::and_utc`.
#[verifier::external_body]
pub(crate) fn ymd_hms_value(s: &str) -> (r: Option<Timestamp>)
    ensures
        r == ymd_hms_value_of(s@),
{
    match NaiveDateTime::parse_from_str(s, "%Y-%m-%d %H:%M:%S") {
        Ok(n) => {
            let d = n.and_utc();
            Some(Timestamp { secs: d.timestamp(), nanos: d.timestamp_subsec_nanos() })
        },
        Err(_) => None,
    }
}

/// Relies on chrono's `Utc::now`: the current instant, whatever the clock says.
#[verifier::external_body]
pub(crate) fn now() -> (r: Timestamp) {
    let d = Utc::now();
    Timestamp { secs: d.timestamp(), nanos: d.timestamp_subsec_nanos() }
}

/// Relies on chrono's `Local::now` and `format("%Y-%m-%d")`: today's date in
/// the local time zone.
#[verifier::external_body]
pub(crate) fn local_today_text() -> (r: String) {
    Local::now().format("%Y-%m-%d").to_string()
}

/// Relies on chrono's `Local::now`, `TimeDelta::days(1)` and
/// `format("%Y-%m-%d")`: yesterday's date in the local time zone.
#[verifier::external_body]
pub(crate) fn local_yesterday_text() -> (r: String) {
    (Local::now() - TimeDelta::days(1)).format("%Y-%m-%d").to_string()
}

/// The first value that is present, in order.
pub open spec fn first_some(s: Seq<Option<Timestamp>>) -> Option<Timestamp>
    decreases s.len(),
{
    if s.len() == 0 {
        None
    } else if s[0] is Some {
        s[0]
    } else {
        first_some(s.drop_first())
    }
}

/// The readings of a timestamp text, in the order they are tried: RFC 3339,
/// then `YYYY-MM-DD HH:MM:SS`, then the same pattern after completing a text
/// that stops at the minute, the hour, the day, the month or the year.
pub open spec fn parse_attempts(s: Seq<char>) -> Seq<Option<Timestamp>> {
    seq![
        rfc3339_value_of(s),
        ymd_hms_value_of(s),
        ymd_hms_value_of(s + ":00"@),
        ymd_hms_value_of(s + ":00:00"@),
        ymd_hms_value_of(s + " 00:00:00"@),
        ymd_hms_value_of(s + "-01 00:00:00"@),
        ymd_hms_value_of(s + "-01-01 00:00:00"@),
    ]
}

/// The first reading that succeeds, given the readings in order.
pub fn first_success(attempts: &Vec<Option<Timestamp>>) -> (r: Option<Timestamp>)
    ensures
        r == first_some(attempts@),
{
    let n = attempts.len();
    let mut i: usize = 0;
    assert(attempts@.skip(0) =~= attempts@);
    while i < n
        invariant
            n == attempts@.len(),
            i <= n,
            first_some(attempts@) == first_some(attempts@.skip(i as int)),
        decreases n - i,
    {
        assert(attempts@.skip(i as int)[0] == attempts@[i as int]);
        if attempts[i].is_some() {
            return attempts[i];
        }
        assert(attempts@.skip(i as int).drop_first() =~= attempts@.skip(i + 1));
        i = i + 1;
    }
    assert(attempts@.skip(i as int).len() == 0);
    None
}

/// Reads a timestamp text in the first of the accepted forms that fits.
pub fn parse_timestamp_text(s: &str) -> (r: Option<Timestamp>)
    ensures
        r == first_some(parse_attempts(s@)),
{
    let mut attempts: Vec<Option<Timestamp>> = Vec::new();
    attempts.push(rfc3339_value(s));
    attempts.push(ymd_hms_value(s));
    attempts.push(ymd_hms_value(concat_text(s, ":00").as_str()));
    attempts.push(ymd_hms_value(concat_text(s, ":00:00").as_str()));
    attempts.push(ymd_hms_value(concat_text(s, " 00:00:00").as_str()));
    attempts.push(ymd_hms_value(concat_text(s, "-01 00:00:00").as_str()));
    attempts.push(ymd_hms_value(concat_text(s, "-01-01 00:00:00").as_str()));
    assert(attempts@ =~= parse_attempts(s@));
    first_success(&attempts)
}

/// The text that stands for a date word: `today` and `yesterday` become the
/// given dates, any other input stays as it is.
pub open spec fn expand_date_word(input: Seq<char>, today: Seq<char>, yesterday: Seq<char>) -> Seq<
    char,
> {
    if input == "today"@ {
        today
    } else if input == "yesterday"@ {
        yesterday
    } else {
        input
    }
}

pub fn expand_natural_date(input: &str, today: &str, yesterday: &str) -> (r: String)
    ensures
        r@ == expand_date_word(input@, today@, yesterday@),
{
    let word = input.to_owned();
    let t = "today".to_owned();
    let y = "yesterday".to_owned();
    if word == t {
        today.to_owned()
    } else if word == y {
        yesterday.to_owned()
    } else {
        word
    }
}

/// The instant a bound text reads as, with `today` and `yesterday` standing
/// for the given date texts.
pub open spec fn bound_reading(input: Seq<char>, today: Seq<char>, yesterday: Seq<char>) -> Option<
    Timestamp,
> {
    first_some(parse_attempts(expand_date_word(input, today, yesterday)))
}

/// `r` is what a bound text reads as with the given date texts: the instant,
/// or a timestamp error naming the input.
pub open spec fn is_bound_result(
    r: Result<Timestamp, ErrorKind>,
    input: Seq<char>,
    today: Seq<char>,
    yesterday: Seq<char>,
) -> bool {
    match bound_reading(input, today, yesterday) {
        Some(t) => r == Ok::<Timestamp, ErrorKind>(t),
        None => r matches Err(e) && e matches ErrorKind::TimestampParse(s) && s@ == input,
    }
}

/// Reads a bound of a time range, with `today` and `yesterday` standing for
/// the given date texts: the first accepted form that fits the expanded text,
/// or a timestamp error naming the input.
pub fn parse_time_bound(input: &str, today: &str, yesterday: &str) -> (r: Result<Timestamp, ErrorKind>)
    ensures
        is_bound_result(r, input@, today@, yesterday@),
{
    let expanded = expand_natural_date(input, today, yesterday);
    match parse_timestamp_text(expanded.as_str()) {
        Some(t) => Ok(t),
        None => Err(ErrorKind::TimestampParse(input.to_owned())),
    }
}

/// Reads a bound of a time range: a date word (`today`, `yesterday`, taken at
/// local midnight), an RFC 3339 text, or `YYYY-MM-DD HH:MM:SS` cut short after
/// any of its parts. Any other input is a timestamp error. The date words read
/// the local clock; any other input reads the same whatever the clock says.
pub fn try_multiple_time_parser(input: &str) -> (r: Result<Timestamp, ErrorKind>)
    ensures
        exists|today: Seq<char>, yesterday: Seq<char>|
            #[trigger] is_bound_result(r, input@, today, yesterday),
        input@ != "today"@ && input@ != "yesterday"@ ==> is_bound_result(
            r,
            input@,
            Seq::empty(),
            Seq::empty(),
        ),
        input@ != "today"@ && input@ != "yesterday"@ ==> match first_some(
            parse_attempts(input@),
        ) {
            Some(t) => r == Ok::<Timestamp, ErrorKind>(t),
            None => r is Err,
        },
        r matches Err(e) ==> e matches ErrorKind::TimestampParse(s) && s@ == input@,
{
    let word = input.to_owned();
    let today = if word == "today".to_owned() {
        local_today_text()
    } else {
        String::new()
    };
    let yesterday = if word == "yesterday".to_owned() {
        local_yesterday_text()
    } else {
        String::new()
    };
    let r = parse_time_bound(input, today.as_str(), yesterday.as_str());
    proof {
        if input@ != "today"@ && input@ != "yesterday"@ {
            assert(is_bound_result(r, input@, Seq::empty(), Seq::empty()));
        }
    }
    r
}

} // verus!
