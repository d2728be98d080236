//! Timestamps of the exported history: the text form `YYYY-MM-DDTHH:MM:SSZ`
//! and the seconds since the Unix epoch (UTC) that the index keeps.
use vstd::prelude::*;
use crate::end_stream::opt_view;

verus! {

/// The text form of timestamps in the export.
pub const TIMESTAMP_FORMAT: &'static str = "%Y-%m-%dT%H:%M:%SZ";

/// Why a timestamp could not be converted.
#[derive(Debug, Clone, Copy, PartialEq, Eq, Structural, Hash)]
pub enum TimestampError {
    /// The text is not a time in the expected form.
    Unparsable,
    /// The seconds are outside the range of representable times.
    OutOfRange,
}

/// The seconds since the epoch that chrono reads, as UTC, from a text in a
/// format.
pub uninterp spec fn parsed_timestamp(text: Seq<char>, fmt: Seq<char>) -> Option<i64>;

/// The text that chrono writes, in a format, for the UTC time that many
/// seconds after the epoch.
pub uninterp spec fn formatted_timestamp(secs: i64, fmt: Seq<char>) -> Option<Seq<char>>;

/// Relies on chrono's `NaiveDateTime::parse_from_str`, read as UTC by
/// `and_utc().timestamp()`: the result depends on the text and format alone.
#[verifier::external_body]
fn parse_utc(text: &str, fmt: &str) -> (r: Option<i64>)
    ensures
        r == parsed_timestamp(text@, fmt@),
{
    match chrono::NaiveDateTime::parse_from_str(text, fmt) {
        Ok(t) => Some(t.and_utc().timestamp()),
        Err(_) => None,
    }
}

/// Relies on chrono's `DateTime::<Utc>::from_timestamp` and `format`: the
/// result depends on the seconds and format alone. The format is the
/// library's own, which chrono can always write.
#[verifier::external_body]
fn format_utc(secs: i64, fmt: &str) -> (r: Option<String>)
    requires
        fmt@ == TIMESTAMP_FORMAT@,
    ensures
        opt_view(r) == formatted_timestamp(secs, fmt@),
{
    match chrono::DateTime::<chrono::Utc>::from_timestamp(secs, 0) {
        Some(t) => Some(t.format(fmt).to_string()),
        None => None,
    }
}

/// Reads a timestamp of the export as seconds since the epoch.
pub fn parse_timestamp(text: &str) -> (r: Result<i64, TimestampError>)
    ensures
        match parsed_timestamp(text@, TIMESTAMP_FORMAT@) {
            Some(t) => r == Ok::<i64, TimestampError>(t),
            None => r == Err::<i64, TimestampError>(TimestampError::Unparsable),
        },
{
    match parse_utc(text, TIMESTAMP_FORMAT) {
        Some(t) => Ok(t),
        None => Err(TimestampError::Unparsable),
    }
}

/// Writes seconds since the epoch in the text form of the export.
pub fn format_timestamp(secs: i64) -> (r: Result<String, TimestampError>)
    ensures
        match formatted_timestamp(secs, TIMESTAMP_FORMAT@) {
            Some(t) => r matches Ok(s) && s@ == t,
            None => r == Err::<String, TimestampError>(TimestampError::OutOfRange),
        },
{
    match format_utc(secs, TIMESTAMP_FORMAT) {
        Some(s) => Ok(s),
        None => Err(TimestampError::OutOfRange),
    }
}

} // verus!
