//! Durations and instants, in nanoseconds.

use vstd::prelude::*;

verus! {

/// The nanoseconds in a second.
pub const NANOS_PER_SEC: u128 = 1_000_000_000;

/// The nanoseconds in a millisecond.
pub const NANOS_PER_MILLI: u128 = 1_000_000;

/// A span of time.
#[derive(Clone, Copy, Debug, PartialEq, Eq, Hash, Structural)]
pub struct Duration {
    pub nanos: u128,
}

impl Duration {
    /// A duration of whole seconds.
    pub open spec fn of_secs(secs: u64) -> Duration {
        Duration { nanos: (secs * NANOS_PER_SEC) as u128 }
    }

    /// A duration of whole milliseconds.
    pub open spec fn of_millis(millis: u64) -> Duration {
        Duration { nanos: (millis * NANOS_PER_MILLI) as u128 }
    }

    /// Makes a duration of whole seconds.
    pub fn from_secs(secs: u64) -> (result: Duration)
        ensures
            result == Duration::of_secs(secs),
            result.nanos == secs * NANOS_PER_SEC,
    {
        Duration { nanos: secs as u128 * NANOS_PER_SEC }
    }

    /// Makes a duration of whole milliseconds.
    pub fn from_millis(millis: u64) -> (result: Duration)
        ensures
            result == Duration::of_millis(millis),
            result.nanos == millis * NANOS_PER_MILLI,
    {
        Duration { nanos: millis as u128 * NANOS_PER_MILLI }
    }
}

/// A point in time.
#[derive(Clone, Copy, Debug, PartialEq, Eq, Hash, Structural)]
pub struct Instant {
    pub nanos: u128,
}

impl Instant {
    /// The instant at which the duration has passed.
    pub open spec fn after(self, duration: Duration) -> Instant {
        Instant { nanos: (self.nanos + duration.nanos) as u128 }
    }

    /// Can the clock express the instant at which the duration has passed?
    pub open spec fn can_add(self, duration: Duration) -> bool {
        self.nanos + duration.nanos <= u128::MAX
    }

    /// Computes the instant at which the duration has passed.
    pub fn add_duration(&self, duration: Duration) -> (result: Instant)
        requires
            self.can_add(duration),
        ensures
            result == self.after(duration),
            result.nanos == self.nanos + duration.nanos,
    {
        Instant { nanos: self.nanos + duration.nanos }
    }

    /// The time since an earlier instant.
    pub fn duration_since(&self, earlier: Instant) -> (result: Duration)
        requires
            earlier.nanos <= self.nanos,
        ensures
            result.nanos == self.nanos - earlier.nanos,
    {
        Duration { nanos: self.nanos - earlier.nanos }
    }
}

} // verus!
