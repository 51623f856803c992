//! The dates of commits, as the lists and the headers show them.

use crate::text::optional_text;
use vstd::prelude::*;
use vstd::string::*;

verus! {

/// The pattern of a date in a list: year, month, day, hour and minute.
pub open spec fn short_pattern() -> Seq<char> {
    "%Y-%m-%d %H:%M"@
}

/// The pattern of a date in a header, in universal time: weekday, month,
/// day, year, and the time on a clock of twelve hours.
pub open spec fn long_pattern() -> Seq<char> {
    "%a, %b %-d, %Y, %-I:%M %p UTC"@
}

/// The moment that lies `timestamp` seconds behind the start of 1970, in
/// universal time, written by `pattern`; `None` where the calendar does not
/// reach that far.
pub uninterp spec fn utc_text(timestamp: i64, pattern: Seq<char>) -> Option<Seq<char>>;

/// `DateTime::<Utc>::from_timestamp` of `chrono`, with no nanoseconds, and
/// `DateTime::format` with one of the two patterns of this module, which
/// `chrono` can read. The text is in English and depends on the two
/// arguments alone; nothing else is claimed of it.
#[verifier::external_body]
fn format_utc(timestamp: i64, pattern: &str) -> (text: Option<String>)
    requires
        pattern@ == short_pattern() || pattern@ == long_pattern(),
    ensures
        optional_text(text) == utc_text(timestamp, pattern@),
{
    match chrono::DateTime::<chrono::Utc>::from_timestamp(timestamp, 0) {
        Some(moment) => Some(moment.format(pattern).to_string()),
        None => None,
    }
}

/// A date as it is shown: its text, or `unknown` where it has none.
pub open spec fn shown_date(text: Option<Seq<char>>) -> Seq<char> {
    match text {
        Some(t) => t,
        None => "unknown"@,
    }
}

/// The text to show for a date that may have none.
pub fn date_or_unknown(text: Option<String>) -> (shown: String)
    ensures
        shown@ == shown_date(optional_text(text)),
{
    match text {
        Some(t) => t,
        None => "unknown".to_owned(),
    }
}

/// The date of a commit in a list, in universal time.
pub fn format_date(timestamp: i64) -> (shown: String)
    ensures
        shown@ == shown_date(utc_text(timestamp, short_pattern())),
{
    date_or_unknown(format_utc(timestamp, "%Y-%m-%d %H:%M"))
}

/// The date of a commit in a header: the local time where the caller has
/// it, else universal time.
pub fn format_commit_date(local: Option<String>, timestamp: i64) -> (shown: String)
    ensures
        shown@ == match local {
            Some(text) => text@,
            None => shown_date(utc_text(timestamp, long_pattern())),
        },
{
    match local {
        Some(text) => text,
        None => date_or_unknown(format_utc(timestamp, "%a, %b %-d, %Y, %-I:%M %p UTC")),
    }
}

} // verus!
