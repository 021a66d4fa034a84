//! Time stamps and errors of the engine's event scheduler.
//!
//! The scheduler itself runs events on worker threads and lives with the
//! embedding application; what belongs here is its value vocabulary: the
//! simulation time stamp that orders events, and the error a caller sees
//! when scheduling into the past.

use vstd::prelude::*;

verus! {

/// Simulation time, tracked in milliseconds.
#[derive(Debug, Clone, Copy, PartialEq, Eq, PartialOrd, Ord, Structural)]
pub struct Time {
    time_ms: u64,
}

impl Time {
    /// The stamp's value in milliseconds.
    pub closed spec fn spec_ms(self) -> u64 {
        self.time_ms
    }

    /// Construct a new time struct from the provided time in milliseconds.
    pub fn from_ms(ms: u64) -> (t: Time)
        ensures
            t.spec_ms() == ms,
    {
        Time { time_ms: ms }
    }

    /// The stamp moved later by a duration in milliseconds.
    pub fn add_ms(self, ms: u64) -> (t: Time)
        requires
            self.spec_ms() + ms <= u64::MAX,
        ensures
            t.spec_ms() == self.spec_ms() + ms,
    {
        Time { time_ms: self.time_ms + ms }
    }

    /// The stamp moved earlier by a duration in milliseconds.
    pub fn sub_ms(self, ms: u64) -> (t: Time)
        requires
            ms <= self.spec_ms(),
        ensures
            t.spec_ms() == self.spec_ms() - ms,
    {
        Time { time_ms: self.time_ms - ms }
    }
}

/// The kinds of recoverable errors the scheduler can experience.
#[derive(Debug, Clone, Copy, PartialEq, Eq, Structural)]
pub enum SchedulerError {
    /// Attempted to schedule an event to happen in the past.
    ScheduledInPast,
}

} // verus!
