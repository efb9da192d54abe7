//! The clocks: the monotonic one that a cache tier reads when it stamps and
//! ages entries, and the wall clock that stamps metrics and decisions.

use vstd::prelude::*;
use std::time::Duration;
use std::time::Instant;
use std::time::SystemTime;
use std::time::SystemTimeError;
use std::time::UNIX_EPOCH;

verus! {

/// `std::time::Instant`, a reading of the monotonic clock, as a value that
/// is carried and never looked into.
#[verifier::external_type_specification]
#[verifier::external_body]
pub struct ExInstant(Instant);

/// `std::time::SystemTime`, a reading of the wall clock, as a value that is
/// carried and never looked into.
#[verifier::external_type_specification]
#[verifier::external_body]
pub struct ExSystemTime(SystemTime);

/// `std::time::SystemTimeError`, the error of a wall-clock reading that is
/// before the time it is measured from, as a value that is never looked
/// into.
#[verifier::external_type_specification]
#[verifier::external_body]
pub struct ExSystemTimeError(SystemTimeError);

/// `std::time::Instant::now`: the current reading of the system's monotonic
/// clock. Nothing is claimed of the value.
#[verifier::external_body]
fn instant_now() -> Instant {
    Instant::now()
}

/// `std::time::Instant::elapsed`, in whole nanoseconds: the time that has
/// passed since `origin` was read. Nothing is claimed of the value.
#[verifier::external_body]
fn nanos_since(origin: &Instant) -> u128 {
    origin.elapsed().as_nanos()
}

/// `std::time::SystemTime::now`: the current reading of the wall clock.
/// Nothing is claimed of the value.
#[verifier::external_body]
fn system_now() -> SystemTime {
    SystemTime::now()
}

/// `std::time::SystemTime::duration_since` with the Unix epoch as the
/// earlier time: the time from the epoch to `t`, or an error if `t` is
/// before the epoch. Nothing is claimed of the value.
#[verifier::external_body]
fn since_epoch(t: &SystemTime) -> Result<Duration, SystemTimeError> {
    t.duration_since(UNIX_EPOCH)
}

/// `std::time::Duration::as_millis`: the whole milliseconds in `d`. Nothing
/// is claimed of the value.
#[verifier::external_body]
fn whole_millis(d: &Duration) -> u128 {
    d.as_millis()
}

/// The wall clock in milliseconds since the Unix epoch, cut to sixty-four
/// bits; zero if the wall clock is set before the epoch.
pub fn now_ms() -> u64 {
    let now = system_now();
    stamp(match since_epoch(&now) {
        Ok(d) => Some(whole_millis(&d)),
        Err(_) => None,
    })
}

/// A monotonic clock that counts nanoseconds from the moment it was made.
pub struct Clock {
    origin: Instant,
}

impl Clock {
    /// A clock that starts now.
    pub fn new() -> Clock {
        Clock { origin: instant_now() }
    }

    /// Nanoseconds since the clock was made.
    pub fn now(&self) -> u128 {
        nanos_since(&self.origin)
    }
}

/// The stamp for a reading of the wall clock, given as the whole
/// milliseconds since the Unix epoch, or as nothing for a reading before the
/// epoch: the low sixty-four bits of the milliseconds, or zero.
pub open spec fn stamp_of(since_epoch: Option<u128>) -> u64 {
    match since_epoch {
        Some(ms) => (ms % 0x1_0000_0000_0000_0000) as u64,
        None => 0,
    }
}

/// The stamp for a reading of the wall clock.
pub fn stamp(since_epoch: Option<u128>) -> (ms: u64)
    ensures
        ms == stamp_of(since_epoch),
{
    match since_epoch {
        Some(ms) => (ms % 0x1_0000_0000_0000_0000) as u64,
        None => 0,
    }
}

} // verus!
