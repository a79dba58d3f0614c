//! Spoken reminders: a stop name arrives over UDP, a request file is left
//! for it, and a sound plays when a bus of that route is five to seven
//! minutes away.

use vstd::prelude::*;
use vstd::string::StringSliceAdditionalSpecFns;
use vstd::utf8::{decode_utf8, encode_utf8, valid_utf8};

use crate::text::{trim_white, trim_white_of};

verus! {

/// The UDP port reminder requests arrive on.
pub const REMINDER_PORT: u16 = 1337;

/// Longest stop name accepted in a request, in bytes.
pub const MAX_REMINDER_STOP_BYTES: usize = 10;

/// Pause before and after the acknowledgement sound, in seconds.
pub const REMINDER_ACK_PAUSE_SECS: u64 = 3;

/// A reminder sounds for a bus due more than this many milliseconds ahead...
pub const REMINDER_EARLIEST_MS: i64 = 300000;

/// ...and less than this many.
pub const REMINDER_LATEST_MS: i64 = 420000;

/// The characters `String::from_utf8_lossy` makes of `bytes`.
pub uninterp spec fn utf8_lossy(bytes: Seq<u8>) -> Seq<char>;

/// `String::from_utf8_lossy`, made an owned `String`: its characters are
/// the name `utf8_lossy` of the bytes, and valid UTF-8 is decoded unchanged.
/// Which replacement characters stand for invalid sequences is left unsaid.
#[verifier::external_body]
fn decode_lossy(bytes: &[u8]) -> (s: String)
    ensures
        s@ == utf8_lossy(bytes@),
        valid_utf8(bytes@) ==> s@ == decode_utf8(bytes@),
{
    String::from_utf8_lossy(bytes).into_owned()
}

/// Whether `char::is_alphanumeric` holds of `c` (Unicode `Alphabetic` or a
/// numeric general category).
pub uninterp spec fn unicode_alphanumeric(c: char) -> bool;

/// `char::is_alphanumeric`: stated only as the name `unicode_alphanumeric`;
/// the Unicode tables behind it are left unsaid.
#[verifier::external_body]
fn alphanumeric(c: char) -> (b: bool)
    ensures
        b == unicode_alphanumeric(c),
{
    c.is_alphanumeric()
}

/// A stop name that may be asked for: letters and digits only, and at most
/// ten bytes long.
pub open spec fn acceptable_stop(stop: Seq<char>) -> bool {
    &&& forall|i: int| 0 <= i < stop.len() ==> unicode_alphanumeric(#[trigger] stop[i])
    &&& encode_utf8(stop).len() <= MAX_REMINDER_STOP_BYTES
}

/// The stop name a datagram asks a reminder for: its text, decoded leniently
/// and trimmed of surrounding whitespace, if that is acceptable.
pub fn reminder_stop(datagram: &[u8]) -> (stop: Option<String>)
    ensures
        match stop {
            Some(s) => s@ == trim_white(utf8_lossy(datagram@)) && acceptable_stop(s@),
            None => !acceptable_stop(trim_white(utf8_lossy(datagram@))),
        },
{
    let text = decode_lossy(datagram);
    let stop = trim_white_of(text.as_str());
    let n = stop.as_str().unicode_len();
    let mut i: usize = 0;
    while i < n
        invariant
            stop@ == trim_white(utf8_lossy(datagram@)),
            n == stop@.len(),
            i <= n,
            forall|j: int| 0 <= j < i ==> unicode_alphanumeric(#[trigger] stop@[j]),
        decreases n - i,
    {
        if !alphanumeric(stop.as_str().get_char(i)) {
            return None;
        }
        i = i + 1;
    }
    if stop.as_str().as_bytes().len() > MAX_REMINDER_STOP_BYTES {
        return None;
    }
    Some(stop)
}

/// The file that records a reminder request for `stop`: `<stop>.req`.
pub fn request_path(stop: &str) -> (path: String)
    ensures
        path@ == stop@ + ".req"@,
{
    let mut path = String::from_str(stop);
    path.append(".req");
    path
}

/// The sound played for route `label`: `<label>.wav`.
pub fn sound_path(label: &str) -> (path: String)
    ensures
        path@ == label@ + ".wav"@,
{
    let mut path = String::from_str(label);
    path.append(".wav");
    path
}

/// A bus arriving at `arrival_time_ms` is due for its reminder when the clock
/// reads `now_ms`: more than five and less than seven minutes away.
pub open spec fn reminder_due_spec(arrival_time_ms: int, now_ms: int) -> bool {
    now_ms + REMINDER_EARLIEST_MS < arrival_time_ms < now_ms + REMINDER_LATEST_MS
}

/// Whether a bus arriving at `arrival_time_ms` is due for its reminder.
pub fn reminder_due(arrival_time_ms: i64, now_ms: i64) -> (due: bool)
    requires
        now_ms + REMINDER_LATEST_MS <= i64::MAX,
    ensures
        due == reminder_due_spec(arrival_time_ms as int, now_ms as int),
{
    arrival_time_ms > now_ms + REMINDER_EARLIEST_MS && arrival_time_ms < now_ms + REMINDER_LATEST_MS
}

} // verus!
