//! Clocks: reading the local clock, and the time an HTTP `Date` header gives
//! for setting the system clock.

use vstd::prelude::*;

use crate::text::{replace_all, replace_all_in};

verus! {

/// The system clock is set from the network this often, in seconds.
pub const CLOCK_SYNC_PERIOD_SECS: u64 = 300;

/// A request for the network time gives up after this many seconds.
pub const CLOCK_SYNC_TIMEOUT_SECS: u64 = 10;

/// Why a network time could not be read.
#[derive(Debug, PartialEq, Eq, Structural)]
pub enum ClockSyncError {
    /// The `Date` header is not an RFC 2822 date once `GMT` reads `+0000`.
    UnreadableDate,
}

/// `std::time::SystemTime::elapsed` asked of `std::time::UNIX_EPOCH`: how long
/// ago the epoch was by the system clock, or `None` when the clock reads an
/// earlier time. The value comes from the clock, so nothing is stated of it.
#[verifier::external_body]
fn elapsed_since_epoch() -> Option<std::time::Duration> {
    match std::time::UNIX_EPOCH.elapsed() {
        Ok(d) => Some(d),
        Err(_) => None,
    }
}

/// `std::time::Duration::as_millis`: the whole milliseconds in `d`. A
/// `Duration` is opaque here, so nothing is stated of the result.
#[verifier::external_body]
fn whole_millis(d: &std::time::Duration) -> u128 {
    d.as_millis()
}

/// The local clock in milliseconds since the Unix epoch (cut to 64 bits as
/// `as i64` cuts), or `None` when the clock reads a time before the epoch.
pub fn local_time_ms() -> Option<i64> {
    match elapsed_since_epoch() {
        Some(d) => Some(whole_millis(&d) as i64),
        None => None,
    }
}

/// The Unix time, in whole seconds, of the date that
/// `chrono::DateTime::parse_from_rfc2822` reads in `text`, or `None` where it
/// reads none.
pub uninterp spec fn rfc2822_unix_seconds(text: Seq<char>) -> Option<i64>;

/// `chrono::DateTime::parse_from_rfc2822`, with the parsed date taken to its
/// Unix time by `chrono::DateTime::timestamp`: stated only as the name
/// `rfc2822_unix_seconds` of `text`; which texts parse, and to what, is left
/// to chrono.
#[verifier::external_body]
fn parse_rfc2822_seconds(text: &str) -> (secs: Option<i64>)
    ensures
        secs == rfc2822_unix_seconds(text@),
{
    match chrono::DateTime::parse_from_rfc2822(text) {
        Ok(date) => Some(date.timestamp()),
        Err(_) => None,
    }
}

/// The text of an HTTP `Date` header as an RFC 2822 date: `GMT` written as
/// the offset `+0000`.
pub open spec fn rfc2822_text(header: Seq<char>) -> Seq<char> {
    replace_all(header, "GMT"@, "+0000"@)
}

/// The Unix time (seconds) written in an HTTP `Date` header such as
/// `Mon, 16 Feb 2026 01:11:59 GMT`.
pub fn unix_seconds_from_http_date(header: &str) -> (secs: Result<i64, ClockSyncError>)
    ensures
        secs == match rfc2822_unix_seconds(rfc2822_text(header@)) {
            Some(s) => Ok::<i64, ClockSyncError>(s),
            None => Err(ClockSyncError::UnreadableDate),
        },
{
    proof {
        reveal_strlit("GMT");
    }
    let text = replace_all_in(header, "GMT", "+0000");
    match parse_rfc2822_seconds(text.as_str()) {
        Some(s) => Ok(s),
        None => Err(ClockSyncError::UnreadableDate),
    }
}

} // verus!
