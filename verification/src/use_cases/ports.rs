//! What the use cases need from the outside.

use vstd::prelude::*;

verus! {

/// Abstracts wall-clock access and log emission, so that use cases touch neither
/// the system's time nor its output.
pub trait TelemetryPort {
    /// Monotonic-ish timestamp in microseconds from an arbitrary epoch. Only ever
    /// used to compute durations, never absolute dates.
    fn now_micros(&self) -> u64;

    /// Emits one log line to whatever sink the outer layer provides.
    fn log(&self, message: &str);
}

/// Silent telemetry, used by default and in tests.
pub struct NullTelemetry;

impl TelemetryPort for NullTelemetry {
    fn now_micros(&self) -> (micros: u64)
        ensures
            micros == 0,
    {
        0
    }

    fn log(&self, _message: &str) {
    }
}

/// Microseconds that passed between two readings; none where the clock went back.
pub fn elapsed_micros(start: u64, end: u64) -> (elapsed: u64)
    ensures
        elapsed == if end >= start {
            end - start
        } else {
            0
        },
{
    if end >= start {
        end - start
    } else {
        0
    }
}

} // verus!
