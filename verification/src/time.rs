//! Utilities used for managing game time.

use vstd::prelude::*;

verus! {

/// Time since world creation, tracked in milliseconds.
#[derive(Debug, Clone, Copy, PartialEq, Eq, PartialOrd, Ord, Structural)]
pub struct WorldTime {
    time_ms: u64,
}

impl WorldTime {
    /// The stamp's value in milliseconds.
    pub closed spec fn spec_ms(self) -> u64 {
        self.time_ms
    }

    /// Construct a new time struct from the provided time in milliseconds.
    pub fn from_ms(ms: u64) -> (t: WorldTime)
        ensures
            t.spec_ms() == ms,
    {
        WorldTime { time_ms: ms }
    }

    /// Returns the time since world creation in milliseconds.
    pub fn as_millis(&self) -> (ms: u64)
        ensures
            ms == self.spec_ms(),
    {
        self.time_ms
    }

    /// The stamp moved later by a duration in milliseconds.
    pub fn add_ms(self, ms: u64) -> (t: WorldTime)
        requires
            self.spec_ms() + ms <= u64::MAX,
        ensures
            t.spec_ms() == self.spec_ms() + ms,
    {
        WorldTime { time_ms: self.time_ms + ms }
    }

    /// The stamp moved earlier by a duration in milliseconds.
    pub fn sub_ms(self, ms: u64) -> (t: WorldTime)
        requires
            ms <= self.spec_ms(),
        ensures
            t.spec_ms() == self.spec_ms() - ms,
    {
        WorldTime { time_ms: self.time_ms - ms }
    }

    /// The milliseconds between this stamp and an earlier one.
    pub fn diff_ms(self, earlier: WorldTime) -> (ms: u64)
        requires
            earlier.spec_ms() <= self.spec_ms(),
        ensures
            ms == self.spec_ms() - earlier.spec_ms(),
    {
        self.time_ms - earlier.time_ms
    }
}

} // verus!
