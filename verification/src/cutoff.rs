//! The cutoff: the instant before which an object must have been modified to
//! be archived, in seconds since the epoch.

use chrono::DateTime;
use chrono::Utc;
use std::fmt::Write;
use vstd::prelude::*;

verus! {

/// How many seconds before now the cutoff lies when none is given, so that
/// objects still being written are left alone.
pub const SAFETY_MARGIN: i64 = 1;

/// The cutoff in effect: the one given, else now less the safety margin.
pub open spec fn effective_cutoff_of(given: Option<i64>, now: i64) -> i64 {
    match given {
        Some(cutoff) => cutoff,
        None => if now - SAFETY_MARGIN < i64::MIN {
            i64::MIN
        } else {
            (now - SAFETY_MARGIN) as i64
        },
    }
}

/// The cutoff in effect: the one given, else now less the safety margin.
pub fn effective_cutoff(given: Option<i64>, now: i64) -> (cutoff: i64)
    ensures
        cutoff == effective_cutoff_of(given, now),
{
    match given {
        Some(cutoff) => cutoff,
        None => if now < i64::MIN + SAFETY_MARGIN {
            i64::MIN
        } else {
            now - SAFETY_MARGIN
        },
    }
}

/// How the cutoff is written in the archive's name: year, month, day, an
/// underscore, hour, minute, second, in UTC.
pub open spec fn stamp_pattern() -> Seq<char> {
    "%Y%m%d_%H%M%S"@
}

/// What `chrono` writes for the instant `secs` seconds after the epoch, in
/// UTC, under the format `pattern`; nothing where `chrono` has no date for
/// the instant or cannot write it under the format.
pub uninterp spec fn utc_formatted(secs: i64, pattern: Seq<char>) -> Option<Seq<char>>;

/// The text of an optional string.
pub open spec fn optional_text(text: Option<String>) -> Option<Seq<char>> {
    match text {
        Some(t) => Some(t@),
        None => None,
    }
}

/// Writes an instant with `chrono`: `DateTime::<Utc>::from_timestamp`, then
/// the `Display` of what `DateTime::format` gives. Claimed: the text is
/// `utc_formatted` of the seconds and the format. `None` stands for
/// `from_timestamp` returning nothing and for the writing to fail.
#[verifier::external_body]
fn format_utc(secs: i64, pattern: &str) -> (text: Option<String>)
    ensures
        optional_text(text) == utc_formatted(secs, pattern@),
{
    let moment = DateTime::<Utc>::from_timestamp(secs, 0)?;
    let mut text = String::new();
    match write!(text, "{}", moment.format(pattern)) {
        Ok(()) => Some(text),
        Err(_) => None,
    }
}

/// The stamp of a cutoff for the archive's name, if the cutoff has a date.
pub fn cutoff_stamp(cutoff: i64) -> (stamp: Option<String>)
    ensures
        optional_text(stamp) == utc_formatted(cutoff, stamp_pattern()),
{
    format_utc(cutoff, "%Y%m%d_%H%M%S")
}

} // verus!
