//! Training-signal vocabulary and the wall clock.

use vstd::prelude::*;

verus! {

/// The kind of a training-signal event.
#[derive(Clone, Copy, Debug, PartialEq, Eq, Structural)]
pub enum SignalEventType {
    Write,
    Hit,
    Miss,
    Eviction,
}

/// Milliseconds since the Unix epoch by the system clock
/// (`SystemTime::now`, `duration_since` the epoch). Nothing is promised of
/// the value: it is the time. Where the clock reads before the epoch,
/// `duration_since` fails, and its error is taken as a zero duration.
#[verifier::external_body]
pub fn now_ms() -> u64 {
    std::time::SystemTime::now().duration_since(std::time::UNIX_EPOCH).unwrap_or_default().as_millis() as u64
}

/// Seconds since the Unix epoch by the system clock (`SystemTime::now`,
/// `duration_since` the epoch). Nothing is promised of the value: it is the
/// time. Where the clock reads before the epoch, `duration_since` fails,
/// and its error is taken as a zero duration.
#[verifier::external_body]
pub(crate) fn now_secs() -> u64 {
    std::time::SystemTime::now().duration_since(std::time::UNIX_EPOCH).unwrap_or_default().as_secs()
}

/// Whether `t` is a reading of the wall clock in milliseconds since the
/// epoch: a value that a call of [`now_ms`] gave.
pub open spec fn wall_clock_ms(t: u64) -> bool {
    call_ensures(now_ms, (), t)
}

/// Whether `t` is a reading of the wall clock in seconds since the epoch: a
/// value that a call of `now_secs` gave.
pub closed spec fn wall_clock_secs(t: u64) -> bool {
    call_ensures(now_secs, (), t)
}

/// Reads the wall clock in seconds since the epoch.
pub(crate) fn read_wall_clock_secs() -> (t: u64)
    ensures
        wall_clock_secs(t),
{
    let t = now_secs();
    assert(wall_clock_secs(t));
    t
}

} // verus!
