//! Fixed-offset timestamps, read with `chrono`.

use vstd::prelude::*;
use chrono::DateTime;

verus! {

/// The instant that `chrono` reads from a fixed-offset RFC 3339 timestamp, in
/// milliseconds since the Unix epoch without leap seconds; `None` for text
/// that it does not take for such a timestamp.
pub uninterp spec fn rfc3339_millis(text: Seq<char>) -> Option<i64>;

/// What `chrono` gives for the whole milliseconds that pass from the
/// timestamp `start` to the timestamp `end`.
pub uninterp spec fn rfc3339_elapsed_millis(start: Seq<char>, end: Seq<char>) -> Option<i64>;

/// The time that passes from the timestamp `start` to the timestamp `end`, in
/// whole milliseconds; `None` where one of the two texts is no timestamp.
pub open spec fn elapsed_between(start: Seq<char>, end: Seq<char>) -> Option<i64> {
    if rfc3339_millis(start).is_some() && rfc3339_millis(end).is_some() {
        rfc3339_elapsed_millis(start, end)
    } else {
        None
    }
}

/// Reads a timestamp with `chrono::DateTime::parse_from_rfc3339` and takes its
/// `timestamp_millis`.
///
/// Trusted: the result is a function of the text alone, and it is that
/// function that [`rfc3339_millis`] names. Text that `chrono` rejects gives
/// `None`.
#[verifier::external_body]
pub(crate) fn parse_timestamp(time_str: &str) -> (r: Option<i64>)
    ensures
        r == rfc3339_millis(time_str@),
{
    match DateTime::parse_from_rfc3339(time_str) {
        Ok(instant) => Some(instant.timestamp_millis()),
        Err(_) => None,
    }
}

/// Reads two timestamps with `chrono::DateTime::parse_from_rfc3339` and takes
/// `num_milliseconds` of the `signed_duration_since` from the first to the
/// second.
///
/// Trusted: the result is a function of the two texts alone, named by
/// [`rfc3339_elapsed_millis`], and it is `None` exactly when `chrono` rejects
/// one of the texts, which is when [`rfc3339_millis`] is `None` for it.
#[verifier::external_body]
pub(crate) fn elapsed_millis(start: &str, end: &str) -> (r: Option<i64>)
    ensures
        r == rfc3339_elapsed_millis(start@, end@),
        r.is_some() == (rfc3339_millis(start@).is_some() && rfc3339_millis(end@).is_some()),
{
    match (DateTime::parse_from_rfc3339(start), DateTime::parse_from_rfc3339(end)) {
        (Ok(first), Ok(last)) => Some(last.signed_duration_since(first).num_milliseconds()),
        _ => None,
    }
}

} // verus!
