//! Lengths of time.
use vstd::prelude::*;

verus! {

/// The nanoseconds in a second.
pub const NANOS_PER_SEC: u32 = 1_000_000_000;

/// A length of time: whole seconds, and nanoseconds that make up less than one.
#[derive(Clone, Copy, Debug, PartialEq, Eq, Structural)]
pub struct Duration {
    secs: u64,
    nanos: u32,
}

impl Duration {
    /// The whole seconds.
    pub closed spec fn spec_secs(self) -> u64 {
        self.secs
    }

    /// The nanoseconds behind the whole seconds.
    pub closed spec fn spec_nanos(self) -> u32 {
        self.nanos
    }

    /// The milliseconds, rounded down.
    pub open spec fn spec_millis(self) -> nat {
        (self.spec_secs() * 1000 + self.spec_nanos() / 1_000_000) as nat
    }

    /// So many seconds and nanoseconds, the latter less than a second.
    pub fn new(secs: u64, nanos: u32) -> (duration: Self)
        requires
            nanos < NANOS_PER_SEC,
        ensures
            duration.spec_secs() == secs,
            duration.spec_nanos() == nanos,
    {
        Duration { secs, nanos }
    }

    /// So many seconds.
    pub fn from_secs(secs: u64) -> (duration: Self)
        ensures
            duration.spec_secs() == secs,
            duration.spec_nanos() == 0,
    {
        Duration { secs, nanos: 0 }
    }

    /// So many milliseconds.
    pub fn from_millis(millis: u64) -> (duration: Self)
        ensures
            duration.spec_secs() == millis / 1000,
            duration.spec_nanos() == (millis % 1000) * 1_000_000,
            duration.spec_millis() == millis,
    {
        let nanos: u32 = (millis % 1000) as u32 * 1_000_000;
        Duration { secs: millis / 1000, nanos }
    }

    /// The whole seconds.
    pub fn as_secs(&self) -> (secs: u64)
        ensures
            secs == self.spec_secs(),
    {
        self.secs
    }

    /// The nanoseconds behind the whole seconds.
    pub fn subsec_nanos(&self) -> (nanos: u32)
        ensures
            nanos == self.spec_nanos(),
    {
        self.nanos
    }

    /// The milliseconds, rounded down.
    pub fn as_millis(&self) -> (millis: u128)
        ensures
            millis == self.spec_millis(),
    {
        self.secs as u128 * 1000 + (self.nanos / 1_000_000) as u128
    }
}

/// A length of time in milliseconds: a thousand for every second, and those in
/// the nanoseconds.
pub proof fn law_milliseconds(duration: Duration)
    ensures
        duration.spec_millis() == 1000 * duration.spec_secs() + duration.spec_nanos()
            / 1_000_000,
{
}

} // verus!
