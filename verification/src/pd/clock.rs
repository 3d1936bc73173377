//! Wall-clock time, in milliseconds since the Unix epoch.

use std::time::{Duration, SystemTime, UNIX_EPOCH};
use vstd::prelude::*;

verus! {

/// A moment of the system clock.
#[verifier::external_type_specification]
#[verifier::external_body]
pub struct ExSystemTime(SystemTime);

/// `SystemTime::now`: the current time. Nothing is claimed of it.
pub assume_specification[ SystemTime::now ]() -> SystemTime
;

/// `SystemTime::duration_since`, taken since the Unix epoch: how long ago that was, or `None`
/// where the moment is before it. Nothing is claimed of the result: a moment has no value here.
#[verifier::external_body]
fn since_epoch(t: SystemTime) -> Option<Duration> {
    t.duration_since(UNIX_EPOCH).ok()
}

/// `Duration::as_millis`: the whole milliseconds of a duration. Nothing is claimed of the result:
/// a duration has no value here.
pub assume_specification[ Duration::as_millis ](d: &Duration) -> u128
;

/// The milliseconds of a time since the epoch, in 64 bits; 0 for a time before it.
pub open spec fn wall_ms(elapsed: Option<u128>) -> u64 {
    match elapsed {
        Some(ms) => (ms % 0x1_0000_0000_0000_0000) as u64,
        None => 0,
    }
}

/// The milliseconds of a time since the epoch.
pub fn millis(elapsed: Option<u128>) -> (r: u64)
    ensures
        r == wall_ms(elapsed),
{
    match elapsed {
        Some(ms) => (ms % 0x1_0000_0000_0000_0000) as u64,
        None => 0,
    }
}

/// Wall-clock milliseconds since the Unix epoch, 0 if the clock is before it: the time base of
/// the failure detector and of the timestamp oracle in a running server.
pub fn now_ms() -> u64 {
    let elapsed: Option<u128> = match since_epoch(SystemTime::now()) {
        Some(d) => Some(d.as_millis()),
        None => None,
    };
    millis(elapsed)
}

/// A source of physical time, in milliseconds.
pub trait Clock {
    /// Whether the clock can be read.
    spec fn ready(&self) -> bool;

    /// Whether the clock can say this time.
    spec fn may_read(&self, ms: u64) -> bool;

    /// The current time. A clock may jump, and may even go backwards.
    fn read(&self) -> (ms: u64)
        requires
            self.ready(),
        ensures
            self.may_read(ms),
    ;
}

/// The system's clock: it can say any time.
pub struct SystemClock {}

impl Clock for SystemClock {
    open spec fn ready(&self) -> bool {
        true
    }

    open spec fn may_read(&self, ms: u64) -> bool {
        true
    }

    fn read(&self) -> (ms: u64) {
        now_ms()
    }
}

/// A clock that a function supplies.
pub struct FnClock<F: Fn() -> u64> {
    pub source: F,
}

impl<F: Fn() -> u64> Clock for FnClock<F> {
    open spec fn ready(&self) -> bool {
        call_requires(self.source, ())
    }

    open spec fn may_read(&self, ms: u64) -> bool {
        call_ensures(self.source, (), ms)
    }

    fn read(&self) -> (ms: u64) {
        (self.source)()
    }
}

} // verus!
