//! The time of day.
use crate::Timestamp;
use vstd::prelude::*;

verus! {

/// `SystemTime::elapsed` of `UNIX_EPOCH`: the time since the start of 1970, or nothing where the
/// clock stands before it. The clock decides; nothing is claimed of the result.
#[verifier::external_body]
fn since_epoch() -> (r: Option<std::time::Duration>) {
    std::time::UNIX_EPOCH.elapsed().ok()
}

/// The whole microseconds of a span.
pub uninterp spec fn duration_micros(d: std::time::Duration) -> u128;

/// `Duration::as_micros`: the whole microseconds of the span, a function of the span.
pub assume_specification[ std::time::Duration::as_micros ](d: &std::time::Duration) -> (r: u128)
    ensures
        r == duration_micros(*d),
;

/// `Duration::as_secs`: the whole seconds of the span.
pub assume_specification[ std::time::Duration::as_secs ](d: &std::time::Duration) -> (r: u64)
    ensures
        r == duration_micros(*d) / 1_000_000,
;

/// The low-order 64 bits of the microseconds in `elapsed`, zero where there is no span.
pub open spec fn micros_in(elapsed: Option<std::time::Duration>) -> Timestamp {
    match elapsed {
        Some(d) => (duration_micros(d) % 0x1_0000_0000_0000_0000) as u64,
        None => 0,
    }
}

/// The whole seconds in `elapsed`, zero where there is no span.
pub open spec fn secs_in(elapsed: Option<std::time::Duration>) -> int {
    match elapsed {
        Some(d) => duration_micros(d) as int / 1_000_000,
        None => 0,
    }
}

/// The low-order 64 bits of the microseconds that have passed, zero where the clock stands too
/// early.
pub fn timestamp_of(elapsed: Option<std::time::Duration>) -> (r: Timestamp)
    ensures
        r == micros_in(elapsed),
{
    match elapsed {
        Some(d) => (d.as_micros() % 0x1_0000_0000_0000_0000) as u64,
        None => 0,
    }
}

/// The seconds that have passed, zero where the clock stands too early.
pub fn seconds_of(elapsed: Option<std::time::Duration>) -> (r: u64)
    ensures
        r == secs_in(elapsed),
{
    match elapsed {
        Some(d) => d.as_secs(),
        None => 0,
    }
}

/// The present time in microseconds.
pub fn current_timestamp() -> (r: Timestamp)
    ensures
        exists|elapsed: Option<std::time::Duration>| r == #[trigger] micros_in(elapsed),
{
    timestamp_of(since_epoch())
}

/// The present time in seconds.
pub fn current_seconds() -> (r: u64)
    ensures
        exists|elapsed: Option<std::time::Duration>| r == #[trigger] secs_in(elapsed),
{
    seconds_of(since_epoch())
}

/// Law: a time in microseconds is a million times that in seconds and less than a second more, as
/// long as it fits; where the clock stands too early both are zero.
pub proof fn law_times_agree(elapsed: Option<std::time::Duration>)
    ensures
        elapsed is None ==> micros_in(elapsed) == 0 && secs_in(elapsed) == 0,
        elapsed matches Some(d) ==> duration_micros(d) <= u64::MAX ==> {
            &&& micros_in(elapsed) == duration_micros(d)
            &&& secs_in(elapsed) * 1_000_000 <= micros_in(elapsed)
            &&& micros_in(elapsed) < (secs_in(elapsed) + 1) * 1_000_000
        },
        elapsed matches Some(d) ==> micros_in(elapsed) as int == duration_micros(d) as int
            % 0x1_0000_0000_0000_0000,
{
}

} // verus!
