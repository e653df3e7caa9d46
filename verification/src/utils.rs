//! Timing of a computation.

use core::time::Duration;
use std::time::Instant;
use vstd::prelude::*;

verus! {

#[verifier::external_type_specification]
#[verifier::external_body]
pub struct ExInstant(Instant);

/// Calls `std::time::Instant::now`: a reading of the monotonic clock, of which
/// nothing is promised.
#[verifier::external_body]
fn instant_now() -> Instant {
    Instant::now()
}

/// Calls `std::time::Instant::elapsed`: the time passed since `start`, of which
/// nothing is promised.
#[verifier::external_body]
fn elapsed_since(start: &Instant) -> Duration {
    start.elapsed()
}

/// Runs `f` once and returns its result together with the time it took.
pub fn measure_execution<T, F: FnOnce() -> T>(f: F) -> (measured: (T, Duration))
    requires
        f.requires(()),
    ensures
        f.ensures((), measured.0),
{
    let start = instant_now();
    let result = f();
    let duration = elapsed_since(&start);
    (result, duration)
}

} // verus!
