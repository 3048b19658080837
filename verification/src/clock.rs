//! Frame timing for an interactive consumer: the time elapsed since the
//! last query. What the clock returns is inherently nondeterministic, so
//! the trusted declarations promise nothing about the values.

use vstd::prelude::*;

verus! {

#[verifier::external_type_specification]
#[verifier::external_body]
pub struct ExInstant(std::time::Instant);

/// Relies on std::time::Instant::now: a moment on the monotonic clock.
/// Nothing can be promised of when it is taken.
#[verifier::external_body]
fn instant_now() -> std::time::Instant {
    std::time::Instant::now()
}

/// Relies on std::time::Instant::elapsed: the time since that instant.
/// Nothing can be promised of how much has passed.
#[verifier::external_body]
fn instant_elapsed(i: &std::time::Instant) -> std::time::Duration {
    i.elapsed()
}

/// A stopwatch handing out the time between consecutive queries.
pub struct Time {
    last: std::time::Instant,
}

impl Time {
    pub fn new() -> Time {
        Time { last: instant_now() }
    }

    /// The time since the previous call, restarting the measurement.
    pub fn elapsed(&mut self) -> std::time::Duration {
        let delta = instant_elapsed(&self.last);
        self.last = instant_now();
        delta
    }
}

} // verus!
