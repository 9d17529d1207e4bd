//! Periodic timers: doing something at most once per interval.

use vstd::prelude::*;
use std::time::Instant;

verus! {

#[verifier::external_type_specification]
#[verifier::external_body]
pub struct ExInstant(std::time::Instant);

/// Reads the monotonic clock with `Instant::now`; nothing is promised of the reading.
#[verifier::external_body]
fn clock_now() -> Instant {
    Instant::now()
}

/// The whole seconds from `earlier` to `now` (`Instant::duration_since` and
/// `Duration::as_secs`); nothing is promised of it, since the instants are opaque.
#[verifier::external_body]
fn whole_seconds_between(now: Instant, earlier: Instant) -> u64 {
    now.duration_since(earlier).as_secs()
}

/// The nanoseconds from `earlier` to `now` (`Instant::duration_since` and
/// `Duration::as_nanos`); nothing is promised of it, since the instants are opaque.
#[verifier::external_body]
fn nanoseconds_between(now: Instant, earlier: Instant) -> u128 {
    now.duration_since(earlier).as_nanos()
}

/// A timer that fires at most once per interval; a new timer fires at once.
pub struct Periodic {
    interval: u64,
    timestamp: Option<Instant>,
}

/// Whether a period of `interval` seconds is over after `elapsed` whole seconds.
pub open spec fn period_over(elapsed: u64, interval: u64) -> bool {
    elapsed >= interval
}

/// Whether a period of `interval` seconds is over after `elapsed` whole seconds.
pub fn elapsed_enough(elapsed: u64, interval: u64) -> (r: bool)
    ensures
        r == period_over(elapsed, interval),
{
    elapsed >= interval
}

/// How long is left of a period of `interval` seconds after `elapsed` nanoseconds,
/// when fewer than `interval` whole seconds have passed (`elapsed_secs`).
pub fn remaining_nanos(elapsed_secs: u64, elapsed: u128, interval: u64) -> (r: u128)
    ensures
        elapsed_secs >= interval ==> r == 0,
        elapsed_secs < interval && elapsed < interval * 1_000_000_000 ==> r == interval * 1_000_000_000 - elapsed,
        elapsed_secs < interval && elapsed >= interval * 1_000_000_000 ==> r == 0,
{
    if elapsed_secs >= interval {
        return 0;
    }
    let whole = (interval as u128) * 1_000_000_000;
    if elapsed < whole {
        whole - elapsed
    } else {
        0
    }
}

impl Periodic {
    /// A timer with the given interval in seconds; it fires at its first check.
    pub fn new(interval: u32) -> (p: Periodic)
        ensures
            p.interval() == interval,
            p.is_fresh(),
    {
        Periodic { interval: interval as u64, timestamp: None }
    }

    /// The interval in seconds.
    pub closed spec fn interval(&self) -> u64 {
        self.interval
    }

    /// Whether the timer has never fired.
    pub closed spec fn is_fresh(&self) -> bool {
        self.timestamp is None
    }

    /// Fires when a whole interval has passed since it last fired (or when it never did),
    /// and then starts a new interval from now. A timer that does not fire is unchanged.
    pub fn next_if_elapsed(&mut self) -> (fired: bool)
        ensures
            final(self).interval() == old(self).interval(),
            old(self).is_fresh() ==> fired,
            fired ==> !final(self).is_fresh(),
            !fired ==> *final(self) == *old(self),
    {
        let now = clock_now();
        let fired = match self.timestamp {
            None => true,
            Some(ts) => elapsed_enough(whole_seconds_between(now, ts), self.interval),
        };
        if fired {
            self.timestamp = Some(now);
        }
        fired
    }

    /// The step of a timer that paces a loop: how many nanoseconds to wait before the next
    /// round. When a whole interval has passed (or the timer is new), nothing is left to
    /// wait and the next interval starts now; otherwise the rest of the interval is to be
    /// waited, after which `restart` starts the next one.
    pub fn time_to_wait(&mut self) -> (wait: u128)
        ensures
            final(self).interval() == old(self).interval(),
            old(self).is_fresh() ==> wait == 0,
            wait == 0 ==> !final(self).is_fresh(),
            wait > 0 ==> *final(self) == *old(self),
    {
        let now = clock_now();
        match self.timestamp {
            None => {
                self.timestamp = Some(now);
                0
            },
            Some(ts) => {
                let secs = whole_seconds_between(now, ts);
                let wait = remaining_nanos(secs, nanoseconds_between(now, ts), self.interval);
                if wait == 0 {
                    self.timestamp = Some(now);
                }
                wait
            },
        }
    }

    /// Starts a new interval from now.
    pub fn restart(&mut self)
        ensures
            final(self).interval() == old(self).interval(),
            !final(self).is_fresh(),
    {
        self.timestamp = Some(clock_now());
    }
}

} // verus!
