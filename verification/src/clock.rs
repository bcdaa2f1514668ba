use vstd::prelude::*;
use chrono::DateTime;

verus! {

/// What `chrono` writes for the UTC time `secs` seconds after the Unix epoch
/// with the format, or nothing when the time is out of its range.
pub uninterp spec fn utc_formatted(secs: i64, format: Seq<char>) -> Option<Seq<char>>;

/// Formats a UTC time given in seconds since the Unix epoch
/// (`chrono::DateTime::from_timestamp`, then `format` and `to_string`).
/// `from_timestamp` gives nothing for times out of chrono's range. Formatting
/// panics on a malformed format, so only the benchmark's own format is
/// admitted. The contract names the text; the calendar is not restated.
#[verifier::external_body]
fn format_utc(secs: i64, format: &str) -> (text: Option<String>)
    requires
        format@ == TIMESTAMP_FORMAT@,
    ensures
        match text {
            Some(t) => utc_formatted(secs, format@) == Some(t@),
            None => utc_formatted(secs, format@) is None,
        },
{
    match DateTime::from_timestamp(secs, 0) {
        Some(dt) => Some(dt.format(format).to_string()),
        None => None,
    }
}

/// The format of the timestamps in the names of result files.
pub const TIMESTAMP_FORMAT: &'static str = "%Y-%m-%d_%H:%M:%S";

/// The whole seconds since the Unix epoch of a moment given as its distance
/// from the epoch (whole seconds and the nanoseconds beyond them) and on
/// which side of the epoch it lies, rounded down.
pub open spec fn floor_seconds(before_epoch: bool, secs: u64, subsec_nanos: u32) -> int {
    if before_epoch {
        -(secs as int) - if subsec_nanos > 0 { 1int } else { 0int }
    } else {
        secs as int
    }
}

/// The whole seconds since the Unix epoch, rounded down, of a moment given
/// by its distance from the epoch; nothing when that does not fit in an `i64`.
pub fn unix_seconds(before_epoch: bool, secs: u64, subsec_nanos: u32) -> (s: Option<i64>)
    ensures
        s matches Some(v) ==> v == floor_seconds(before_epoch, secs, subsec_nanos),
        s is None <==> !(i64::MIN <= floor_seconds(before_epoch, secs, subsec_nanos) <= i64::MAX),
{
    if secs > 9223372036854775807u64 {
        if before_epoch && secs == 9223372036854775808u64 && subsec_nanos == 0 {
            return Some(i64::MIN);
        }
        return None;
    }
    let whole: i64 = secs as i64;
    if !before_epoch {
        Some(whole)
    } else if subsec_nanos > 0 {
        Some(-whole - 1)
    } else {
        Some(-whole)
    }
}

/// The whole seconds are the moment rounded down: the moment, counted in
/// nanoseconds from the epoch (negative before it), lies at or after the
/// start of that second and before the start of the next.
pub proof fn lemma_unix_seconds_round_down(before_epoch: bool, secs: u64, subsec_nanos: u32)
    requires
        subsec_nanos < 1_000_000_000,
    ensures
        ({
            let nanos: int = if before_epoch {
                -(secs as int * 1_000_000_000 + subsec_nanos as int)
            } else {
                secs as int * 1_000_000_000 + subsec_nanos as int
            };
            let v = floor_seconds(before_epoch, secs, subsec_nanos);
            v * 1_000_000_000 <= nanos < (v + 1) * 1_000_000_000
        }),
{
}

/// The timestamp of a moment given in seconds since the Unix epoch, as
/// `year-month-day_hour:minute:second` in UTC; nothing for moments out of range.
pub fn timestamp(unix_secs: i64) -> (text: Option<String>)
    ensures
        match text {
            Some(t) => utc_formatted(unix_secs, TIMESTAMP_FORMAT@) == Some(t@),
            None => utc_formatted(unix_secs, TIMESTAMP_FORMAT@) is None,
        },
{
    format_utc(unix_secs, TIMESTAMP_FORMAT)
}

} // verus!
