//! Spans of time and the monotonic clock that measures them.

use vstd::prelude::*;

verus! {

pub const NANOS_PER_SEC: u128 = 1_000_000_000;

pub const NANOS_PER_MILLI: u128 = 1_000_000;

pub const NANOS_PER_MICRO: u128 = 1_000;

/// The longest span a `Duration` can hold: `u64::MAX` seconds and 999,999,999 nanoseconds.
pub const MAX_DURATION_NANOS: u128 = 18_446_744_073_709_551_615_999_999_999;

/// A span of time with nanosecond resolution. Its view is the number of nanoseconds.
#[derive(Clone, Copy, Debug, PartialEq, Eq, Structural)]
pub struct Duration {
    nanos: u128,
}

impl View for Duration {
    type V = nat;

    closed spec fn view(&self) -> nat {
        self.nanos as nat
    }
}

impl Duration {
    #[verifier::type_invariant]
    spec fn in_range(self) -> bool {
        self.nanos <= MAX_DURATION_NANOS
    }

    /// `secs` whole seconds and `nanos` nanoseconds; a whole second's worth of `nanos` carries.
    pub fn new(secs: u64, nanos: u32) -> (d: Duration)
        requires
            secs * NANOS_PER_SEC + nanos <= MAX_DURATION_NANOS,
        ensures
            d@ == secs * NANOS_PER_SEC + nanos,
    {
        Duration { nanos: secs as u128 * NANOS_PER_SEC + nanos as u128 }
    }

    /// The empty span.
    pub fn zero() -> (d: Duration)
        ensures
            d@ == 0,
    {
        Duration { nanos: 0 }
    }

    pub fn from_secs(secs: u64) -> (d: Duration)
        ensures
            d@ == secs * NANOS_PER_SEC,
    {
        Duration { nanos: secs as u128 * NANOS_PER_SEC }
    }

    pub fn from_millis(millis: u64) -> (d: Duration)
        ensures
            d@ == millis * NANOS_PER_MILLI,
    {
        Duration { nanos: millis as u128 * NANOS_PER_MILLI }
    }

    pub fn from_micros(micros: u64) -> (d: Duration)
        ensures
            d@ == micros * NANOS_PER_MICRO,
    {
        Duration { nanos: micros as u128 * NANOS_PER_MICRO }
    }

    pub fn from_nanos(nanos: u64) -> (d: Duration)
        ensures
            d@ == nanos,
    {
        Duration { nanos: nanos as u128 }
    }

    pub fn as_nanos(&self) -> (n: u128)
        ensures
            n == self@,
            n <= MAX_DURATION_NANOS,
    {
        proof {
            use_type_invariant(self);
        }
        self.nanos
    }

    pub fn as_micros(&self) -> (n: u128)
        ensures
            n == self@ / NANOS_PER_MICRO as nat,
    {
        self.nanos / NANOS_PER_MICRO
    }

    pub fn as_millis(&self) -> (n: u128)
        ensures
            n == self@ / NANOS_PER_MILLI as nat,
    {
        self.nanos / NANOS_PER_MILLI
    }

    pub fn as_secs(&self) -> (n: u64)
        ensures
            n == self@ / NANOS_PER_SEC as nat,
    {
        proof {
            use_type_invariant(self);
        }
        (self.nanos / NANOS_PER_SEC) as u64
    }
}

/// How long after `since` the reading `now` was taken; zero if it was taken before.
pub open spec fn elapsed(since: nat, now: nat) -> nat {
    if now >= since {
        (now - since) as nat
    } else {
        0
    }
}

/// The time from `since` to `now`, two readings of one clock.
pub fn elapsed_between(since: Duration, now: Duration) -> (d: Duration)
    ensures
        d@ == elapsed(since@, now@),
{
    proof {
        use_type_invariant(&now);
    }
    if now.nanos >= since.nanos {
        Duration { nanos: now.nanos - since.nanos }
    } else {
        Duration { nanos: 0 }
    }
}

/// The operating system's monotonic clock reading, carried through unread.
#[verifier::external_type_specification]
#[verifier::external_body]
pub struct ExInstant(std::time::Instant);

/// Calls `std::time::Instant::now`. Nothing is claimed of the reading: it depends on when the
/// call is made.
#[verifier::external_body]
fn instant_now() -> std::time::Instant {
    std::time::Instant::now()
}

/// Calls `std::time::Instant::elapsed` and splits the span into whole seconds and the nanoseconds
/// left over. Which span comes back depends on when the call is made; the leftover is always
/// less than one second.
#[verifier::external_body]
fn instant_elapsed(since: &std::time::Instant) -> (span: (u64, u32))
    ensures
        span.1 < 1_000_000_000,
{
    let elapsed = since.elapsed();
    (elapsed.as_secs(), elapsed.subsec_nanos())
}

/// A monotonic clock whose readings count from the moment it was started.
pub struct Clock {
    origin: std::time::Instant,
}

impl Clock {
    pub fn start() -> Clock {
        Clock { origin: instant_now() }
    }

    /// The time since this clock was started.
    pub fn now(&self) -> Duration {
        let (secs, nanos) = instant_elapsed(&self.origin);
        Duration::new(secs, nanos)
    }
}

} // verus!
