//! Clocks that decide age rotation.
use std::sync::atomic::AtomicU64;
use std::sync::Arc;
use std::time::SystemTime;
use vstd::prelude::*;
use crate::batch::share;

verus! {

/// Clock used to decide age rotation.
pub trait Clock: Send + Sync {
    /// Current time in nanoseconds since the Unix epoch.
    fn unix_nanos(&self) -> u64;
}

/// Clock that tests and callers can move explicitly.
#[derive(Debug)]
pub struct ManualClock {
    now: Arc<AtomicU64>,
}

impl Clone for ManualClock {
    fn clone(&self) -> (copy: Self)
        ensures
            copy == *self,
    {
        ManualClock { now: share(&self.now) }
    }
}

impl ManualClock {
    /// Clock fixed at `unix_nanos` until [`ManualClock::set`].
    #[must_use]
    pub fn new(unix_nanos: u64) -> Self {
        ManualClock { now: Arc::new(AtomicU64::new(unix_nanos)) }
    }

    /// Move the clock to `unix_nanos`.
    pub fn set(&self, unix_nanos: u64) {
        self.now.store(unix_nanos, std::sync::atomic::Ordering::Relaxed);
    }
}

impl Clock for ManualClock {
    fn unix_nanos(&self) -> u64 {
        self.now.load(std::sync::atomic::Ordering::Relaxed)
    }
}

/// Wall clock in Unix nanoseconds.
#[derive(Clone, Copy, Debug, Default)]
pub struct SystemClock;

/// An instant of the machine's clock.
#[verifier::external_type_specification]
#[verifier::external_body]
pub struct ExSystemTime(std::time::SystemTime);

/// `SystemTime::now`: what the machine's clock shows, of which nothing is promised.
pub assume_specification[ std::time::SystemTime::now ]() -> std::time::SystemTime;

/// `Duration::as_nanos`: the length of a duration, of which nothing is promised.
pub assume_specification[ std::time::Duration::as_nanos ](
    _0: &std::time::Duration,
) -> u128;

/// `SystemTime::duration_since` the Unix epoch; none where the instant lies before it. Nothing is
/// promised of the length.
#[verifier::external_body]
fn since_epoch(instant: SystemTime) -> Option<std::time::Duration> {
    instant.duration_since(SystemTime::UNIX_EPOCH).ok()
}

/// Nanoseconds between the Unix epoch and now, by the machine's clock; none where that clock stands
/// before the epoch. Any value may come back.
pub fn nanos_since_epoch() -> Option<u128> {
    match since_epoch(SystemTime::now()) {
        Some(elapsed) => Some(elapsed.as_nanos()),
        None => None,
    }
}

/// Nanoseconds since the epoch as a clock shows them: zero before it, and no more than fit.
pub open spec fn shown_nanos(elapsed: Option<u128>) -> u64 {
    match elapsed {
        Some(nanos) => if nanos > u64::MAX {
            u64::MAX
        } else {
            nanos as u64
        },
        None => 0,
    }
}

/// Nanoseconds since the epoch as a clock shows them: zero before it, and no more than fit.
pub fn show_nanos(elapsed: Option<u128>) -> (nanos: u64)
    ensures
        nanos == shown_nanos(elapsed),
{
    match elapsed {
        Some(nanos) => if nanos > u64::MAX as u128 {
            u64::MAX
        } else {
            nanos as u64
        },
        None => 0,
    }
}

impl Clock for SystemClock {
    fn unix_nanos(&self) -> u64 {
        show_nanos(nanos_since_epoch())
    }
}

/// A clock shows the time as it is wherever it fits, never runs backwards, and stands still at its ends.
pub proof fn shown_time_follows_the_clock(early: u128, late: u128)
    requires
        early <= late,
    ensures
        early <= u64::MAX ==> shown_nanos(Some(early)) == early,
        shown_nanos(Some(early)) <= shown_nanos(Some(late)),
        late > u64::MAX ==> shown_nanos(Some(late)) == u64::MAX,
        shown_nanos(None) == shown_nanos(Some(0)),
{
}

} // verus!
