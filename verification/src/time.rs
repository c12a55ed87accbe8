//! Durations and monotonic instants.

use vstd::prelude::*;

verus! {

/// A span of time.
#[derive(Clone, Copy, Debug, PartialEq, Eq, Structural, Hash)]
pub struct Duration {
    pub nanos: u128,
}

/// A reading of a monotonic clock, counted from an origin that the process picks.
#[derive(Clone, Copy, Debug, PartialEq, Eq, Structural, Hash)]
pub struct Instant {
    pub nanos: u128,
}

/// The nanoseconds of a second.
pub const NANOS_PER_SEC: u128 = 1_000_000_000;

/// A duration of whole seconds.
pub open spec fn secs(s: int) -> Duration {
    Duration { nanos: (s * NANOS_PER_SEC) as u128 }
}

impl Duration {
    /// A duration of `s` seconds.
    pub fn from_secs(s: u64) -> (r: Duration)
        ensures
            r == secs(s as int),
            r.nanos == s * NANOS_PER_SEC,
    {
        Duration { nanos: s as u128 * NANOS_PER_SEC }
    }

    /// A duration of `ms` milliseconds.
    pub fn from_millis(ms: u64) -> (r: Duration)
        ensures
            r.nanos == ms * 1_000_000,
    {
        Duration { nanos: ms as u128 * 1_000_000 }
    }

    /// Whether the duration is `s` seconds or more.
    pub open spec fn reaches_spec(self, s: u64) -> bool {
        self.nanos >= s * NANOS_PER_SEC
    }

    /// Whether the duration is `s` seconds or more.
    pub fn reaches(&self, s: u64) -> (r: bool)
        ensures
            r == self.reaches_spec(s),
    {
        self.nanos >= s as u128 * NANOS_PER_SEC
    }
}

impl Instant {
    /// The time since `earlier`, zero if `earlier` is the later one.
    pub open spec fn since_spec(self, earlier: Instant) -> Duration {
        Duration {
            nanos: if self.nanos >= earlier.nanos {
                (self.nanos - earlier.nanos) as u128
            } else {
                0
            },
        }
    }

    /// The time since `earlier`, zero if `earlier` is the later one.
    pub fn since(&self, earlier: Instant) -> (r: Duration)
        ensures
            r == self.since_spec(earlier),
    {
        if self.nanos >= earlier.nanos {
            Duration { nanos: self.nanos - earlier.nanos }
        } else {
            Duration { nanos: 0 }
        }
    }

    /// The instant `d` later.
    pub open spec fn after_spec(self, d: Duration) -> Instant {
        Instant { nanos: (self.nanos + d.nanos) as u128 }
    }

    /// The instant `d` later.
    pub fn after(&self, d: Duration) -> (r: Instant)
        requires
            self.nanos + d.nanos <= u128::MAX,
        ensures
            r == self.after_spec(d),
            r.nanos == self.nanos + d.nanos,
    {
        Instant { nanos: self.nanos + d.nanos }
    }
}

} // verus!
