//! Lengths of time and readings of a monotonic clock.

use vstd::prelude::*;

verus! {

/// Nanoseconds in a second.
pub const NANOS_PER_SECOND: u128 = 1_000_000_000;

/// A length of time: seconds and nanoseconds, added up.
#[derive(Debug, Clone, Copy, PartialEq, Eq, Structural)]
pub struct Duration {
    pub secs: u64,
    pub nanos: u32,
}

impl Duration {
    /// A whole number of seconds.
    #[verifier::allow_in_spec]
    pub fn from_secs(secs: u64) -> Self
        returns
            (Duration { secs, nanos: 0 }),
    {
        Duration { secs, nanos: 0 }
    }

    /// The length in nanoseconds.
    pub open spec fn total(self) -> nat {
        (self.secs * NANOS_PER_SECOND + self.nanos) as nat
    }

    /// The length in nanoseconds.
    pub fn as_nanos(&self) -> (nanos: u128)
        ensures
            nanos == self.total(),
    {
        self.secs as u128 * NANOS_PER_SECOND + self.nanos as u128
    }

    /// The shorter of two lengths of time.
    pub open spec fn shorter(self, other: Self) -> Self {
        if self.total() <= other.total() {
            self
        } else {
            other
        }
    }

    /// The shorter of two lengths of time.
    pub fn min(self, other: Self) -> (least: Self)
        ensures
            least == self.shorter(other),
    {
        if self.as_nanos() <= other.as_nanos() {
            self
        } else {
            other
        }
    }
}

/// A reading of a clock: the time since it was started, as seconds and nanoseconds.
#[derive(Debug, Clone, Copy, PartialEq, Eq, Structural)]
pub struct Instant {
    pub secs: u64,
    pub nanos: u32,
}

impl Instant {
    /// The reading in nanoseconds.
    pub open spec fn total(self) -> nat {
        (self.secs * NANOS_PER_SECOND + self.nanos) as nat
    }

    /// The reading in nanoseconds.
    pub fn as_nanos(&self) -> (nanos: u128)
        ensures
            nanos == self.total(),
    {
        self.secs as u128 * NANOS_PER_SECOND + self.nanos as u128
    }
}

/// A point in time of `std`, opaque here.
#[verifier::external_type_specification]
#[verifier::external_body]
pub struct ExInstant(std::time::Instant);

/// `std::time::Instant::now` reads the monotonic clock of the machine: nothing is
/// promised of the reading.
pub assume_specification[ std::time::Instant::now ]() -> std::time::Instant
;

/// `std::time::Instant::elapsed` tells the time since `start`, handed out as whole
/// seconds and the nanoseconds beyond them, which `std::time::Duration::subsec_nanos`
/// keeps below a second. How much time has passed depends on the clock: nothing is
/// promised of it.
#[verifier::external_body]
fn elapsed(start: &std::time::Instant) -> (reading: Instant)
    ensures
        reading.nanos < NANOS_PER_SECOND,
{
    let passed = start.elapsed();
    Instant { secs: passed.as_secs(), nanos: passed.subsec_nanos() }
}

/// A monotonic clock that counts from the moment at which it was started.
pub(crate) struct Clock {
    start: std::time::Instant,
}

impl Clock {
    /// The clock was started at a moment that `std::time::Instant::now` told.
    pub(crate) closed spec fn is_started(&self) -> bool {
        call_ensures(std::time::Instant::now, (), self.start)
    }

    /// The reading is one that [`elapsed`] told of this clock.
    pub(crate) closed spec fn has_read(&self, reading: Instant) -> bool {
        call_ensures(elapsed, (&self.start,), reading)
    }

    /// Starts a clock at the present moment, of which nothing else is known.
    pub(crate) fn start() -> (clock: Self)
        ensures
            clock.is_started(),
    {
        Clock { start: std::time::Instant::now() }
    }

    /// Reads the clock: whole seconds, and less than a second beyond them. How many
    /// depends on the moment.
    pub(crate) fn now(&self) -> (reading: Instant)
        ensures
            self.has_read(reading),
            reading.nanos < NANOS_PER_SECOND,
    {
        elapsed(&self.start)
    }
}

} // verus!
