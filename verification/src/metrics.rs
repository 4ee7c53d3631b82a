//! Performance measurement helpers.

use vstd::prelude::*;

verus! {

/// Declares std's monotonic clock type so timers can hold a reading.
#[verifier::external_type_specification]
#[verifier::external_body]
pub struct ExInstant(std::time::Instant);

/// Relies on std::time::Instant::now: an opaque reading of the
/// monotonic clock; nothing is assumed of the value.
pub assume_specification[ std::time::Instant::now ]() -> (r: std::time::Instant);

/// A named stopwatch: holds the instant it was started and the name of
/// the measured section.
pub struct PerformanceTimer {
    pub start: std::time::Instant,
    pub name: String,
}

impl PerformanceTimer {
    /// Starts a timer for the named section.
    pub fn new(name: &str) -> (t: PerformanceTimer)
        ensures
            t.name@ == name@,
    {
        PerformanceTimer { start: std::time::Instant::now(), name: name.to_owned() }
    }
}

} // verus!
