//! The wall clock capability: deploy and rollback take the time source as an
//! argument, so their logic stays deterministic and testable. Two variants
//! exist, the real clock and a controllable one.

use vstd::prelude::*;

verus! {

/// A source of the current time, in milliseconds since the Unix epoch.
pub trait WallClock {
    /// The current time. Nothing is promised of the value: callers that
    /// need it within the supported range must check.
    fn now(&self) -> i64;
}

/// The machine's real clock.
pub struct SystemTime(pub ());

impl WallClock for SystemTime {
    fn now(&self) -> i64 {
        system_now_ms()
    }
}

/// Relies on chrono's `Utc::now`: the machine's current time in milliseconds
/// since the Unix epoch. Nothing is promised of the value.
#[verifier::external_body]
fn system_now_ms() -> i64 {
    chrono::Utc::now().timestamp_millis()
}

/// A controllable clock for deterministic runs: reports a fixed instant.
pub struct FakeTime {
    pub current: i64,
}

impl WallClock for FakeTime {
    fn now(&self) -> (r: i64)
        ensures
            r == self.current,
    {
        self.current
    }
}

impl FakeTime {
    /// A fake clock stopped at `current`.
    pub fn new(current: i64) -> (r: Self)
        ensures
            r.current == current,
    {
        FakeTime { current }
    }

    /// The same clock, moved forward by `dur_ms` milliseconds.
    pub fn advance(self, dur_ms: i64) -> (r: Self)
        requires
            i64::MIN <= self.current + dur_ms <= i64::MAX,
        ensures
            r.current == self.current + dur_ms,
    {
        FakeTime { current: self.current + dur_ms }
    }
}

} // verus!
