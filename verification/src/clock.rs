//! The wall clock and the shared stop flag of a search.
use vstd::prelude::*;
use std::sync::atomic::AtomicBool;
use std::time::{Duration, Instant};

verus! {

#[verifier::external_type_specification]
#[verifier::external_body]
pub struct ExInstant(Instant);

/// `Instant::now`: the current time; nothing is known of it.
#[verifier::external_body]
pub(crate) fn clock_now() -> Instant {
    Instant::now()
}

/// `Instant::elapsed`: the time since `t`, which depends on the clock.
#[verifier::external_body]
fn time_since(t: &Instant) -> Duration {
    t.elapsed()
}

/// `Duration::as_millis`: nothing is stated of the result.
pub assume_specification[ Duration::as_millis ](d: &Duration) -> u128;

/// Whole milliseconds since `t` (the low 64 bits).
pub fn elapsed_ms(t: &Instant) -> u64 {
    let d = time_since(t);
    d.as_millis() as u64
}

/// Reads the stop flag (relaxed).
pub fn stop_is_set(flag: &AtomicBool) -> bool {
    flag.load(std::sync::atomic::Ordering::Relaxed)
}

/// Raises the stop flag (relaxed).
pub fn set_stop(flag: &AtomicBool) {
    flag.store(true, std::sync::atomic::Ordering::Relaxed);
}

} // verus!
