//! The system clock.

use vstd::prelude::*;

verus! {

/// Milliseconds since the Unix epoch, by the system clock
/// (`UNIX_EPOCH.elapsed()`; 0 when the clock is set before the epoch),
/// for measuring how long ago something happened. Nothing is stated of the
/// value: it is the time.
#[verifier::external_body]
pub(crate) fn now_ms() -> u64 {
    match std::time::UNIX_EPOCH.elapsed() {
        Ok(d) => d.as_millis() as u64,
        Err(_) => 0,
    }
}

/// The earliest time `chrono` can represent (the start of the year
/// -262143), in Unix milliseconds.
pub const EARLIEST_TIME_MS: i64 = -8_334_601_315_200_000;

/// The last millisecond `chrono` can represent (the end of the year 262142),
/// in Unix milliseconds.
pub const LATEST_TIME_MS: i64 = 8_210_266_876_799_999;

/// How far the system clock stands from the Unix epoch, in whole
/// milliseconds (`UNIX_EPOCH.elapsed()`): `Ok` with the time since the epoch,
/// or `Err` with the time before it when the clock is set earlier (the
/// duration that `SystemTimeError::duration` reports). It is the time, so
/// nothing is stated of the value.
#[verifier::external_body]
fn epoch_offset_ms() -> Result<u128, u128> {
    match std::time::UNIX_EPOCH.elapsed() {
        Ok(d) => Ok(d.as_millis()),
        Err(e) => Err(e.duration().as_millis()),
    }
}

/// The current time by the system clock, in milliseconds since the Unix
/// epoch, negative for a clock set before the epoch. A reading beyond the
/// times that `chrono` can represent is held at the nearest of them, so the
/// result always lies in `EARLIEST_TIME_MS ..= LATEST_TIME_MS`; it never
/// fails.
pub(crate) fn utc_now_ms() -> (r: i64)
    ensures
        EARLIEST_TIME_MS <= r <= LATEST_TIME_MS,
{
    match epoch_offset_ms() {
        Ok(after) => {
            if after <= LATEST_TIME_MS as u128 {
                after as i64
            } else {
                LATEST_TIME_MS
            }
        },
        Err(before) => {
            if before <= 8_334_601_315_200_000u128 {
                0i64 - (before as i64)
            } else {
                EARLIEST_TIME_MS
            }
        },
    }
}

/// Nanoseconds since the Unix epoch, by the system clock
/// (`UNIX_EPOCH.elapsed()`; 0 when the clock is set before the epoch).
/// Nothing is stated of the value: it is the time.
#[verifier::external_body]
pub(crate) fn now_nanos() -> u128 {
    match std::time::UNIX_EPOCH.elapsed() {
        Ok(d) => d.as_nanos(),
        Err(_) => 0,
    }
}

/// The first second `chrono` can represent (the start of the year
/// -262143), in Unix seconds.
pub const EARLIEST_TIME_SECS: i64 = -8_334_601_315_200;

/// The last second `chrono` can represent (the end of the year 262142), in
/// Unix seconds.
pub const LATEST_TIME_SECS: i64 = 8_210_266_876_799;

/// Whether a number of seconds since the Unix epoch is a time that
/// `chrono` can represent: one from the first second of its earliest day
/// to the last second of its latest.
pub open spec fn utc_seconds_representable(secs: i64) -> bool {
    EARLIEST_TIME_SECS <= secs <= LATEST_TIME_SECS
}

/// Whether `chrono::DateTime::from_timestamp(secs, 0)` gives a time: it
/// does exactly when the day of the time lies between `NaiveDate::MIN` and
/// `NaiveDate::MAX`, that is, for the seconds that `chrono` can represent.
#[verifier::external_body]
pub(crate) fn utc_seconds_valid(secs: i64) -> (r: bool)
    ensures
        r == utc_seconds_representable(secs),
{
    chrono::DateTime::from_timestamp(secs, 0).is_some()
}

} // verus!
