//! Where the time comes from.

use crate::outside::since_epoch;
use vstd::prelude::*;

verus! {

/// Seconds since the Unix epoch, given how many there are: none counted where
/// the time is before it, and no more than fit.
pub open spec fn seconds_of(since: Option<u64>) -> i64 {
    match since {
        None => 0,
        Some(seconds) => if seconds <= i64::MAX {
            seconds as i64
        } else {
            i64::MAX
        },
    }
}

/// Seconds since the Unix epoch, given how many there are: none counted where
/// the time is before it, and no more than fit.
#[must_use]
pub fn epoch_seconds(since: Option<u64>) -> (r: i64)
    ensures
        r == seconds_of(since),
{
    match since {
        None => 0,
        Some(seconds) => if seconds <= i64::MAX as u64 {
            seconds as i64
        } else {
            i64::MAX
        },
    }
}

/// Whether this is how many seconds after the Unix epoch the system clock may
/// stand; none where it may stand before it.
pub closed spec fn system_clock_reads(since: Option<u64>) -> bool {
    exists|time: std::time::SystemTime, after: Option<std::time::Duration>|
        call_ensures(std::time::SystemTime::now, (), time) && #[trigger] call_ensures(
            since_epoch,
            (time,),
            after,
        ) && match (after, since) {
            (Some(after), Some(seconds)) => call_ensures(
                std::time::Duration::as_secs,
                (&after,),
                seconds,
            ),
            (None, None) => true,
            _ => false,
        }
}

/// Whether the system clock may give this time.
pub open spec fn is_system_time(at: i64) -> bool {
    exists|since: Option<u64>| system_clock_reads(since) && at == #[trigger] seconds_of(since)
}

/// Seconds since the Unix epoch, now.
#[must_use]
pub fn now() -> (r: i64)
    ensures
        is_system_time(r),
        r >= 0,
{
    let time = std::time::SystemTime::now();
    let after = since_epoch(time);
    let since = match after {
        Some(after) => Some(after.as_secs()),
        None => None,
    };
    assert(call_ensures(since_epoch, (time,), after));
    assert(system_clock_reads(since));
    epoch_seconds(since)
}

/// Whether a clock can be read.
pub open spec fn ready<C: Fn() -> i64>(clock: C) -> bool {
    call_requires(clock, ())
}

/// Whether a clock may give this time.
pub open spec fn gives<C: Fn() -> i64>(clock: C, at: i64) -> bool {
    call_ensures(clock, (), at)
}

/// The system clock is always ready, and gives a time of its own, none before the
/// Unix epoch.
pub proof fn lemma_now()
    ensures
        ready(now),
        forall|at: i64| #[trigger] gives(now, at) ==> is_system_time(at) && at >= 0,
{
}

} // verus!
