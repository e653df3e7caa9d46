//! The wall clock, read through std.

use core::time::Duration;
use std::time::{SystemTime, SystemTimeError, UNIX_EPOCH};
use vstd::prelude::*;

verus! {

#[verifier::external_type_specification]
#[verifier::external_body]
pub struct ExSystemTime(SystemTime);

#[verifier::external_type_specification]
#[verifier::external_body]
pub struct ExSystemTimeError(SystemTimeError);

/// Calls `std::time::SystemTime::now`: what the clock reads, of which nothing
/// is promised.
#[verifier::external_body]
fn clock_now() -> SystemTime {
    SystemTime::now()
}

/// Calls `std::time::SystemTime::duration_since` with `std::time::UNIX_EPOCH`:
/// how long after the epoch `t` lies, or an error when `t` lies before it.
/// Nothing is promised of the values.
#[verifier::external_body]
fn since_unix_epoch(t: &SystemTime) -> Result<Duration, SystemTimeError> {
    t.duration_since(UNIX_EPOCH)
}

/// Calls `std::time::Duration::as_nanos`: the whole nanoseconds of `d`. The
/// durations handed to it come from the clock, so no clause is given.
#[verifier::external_body]
fn whole_nanos(d: &Duration) -> u128 {
    d.as_nanos()
}

/// Nanoseconds since the Unix epoch, cut to their low 64 bits; `None` when the
/// clock reads a time before the epoch.
pub(crate) fn nanos_since_epoch() -> Option<u64> {
    let now = clock_now();
    match since_unix_epoch(&now) {
        Ok(d) => Some(whole_nanos(&d) as u64),
        Err(_) => None,
    }
}

} // verus!
