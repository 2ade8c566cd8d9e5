//! The system clock, and the one type of std it deals in.

use std::time::SystemTime;
use vstd::prelude::*;

verus! {

/// `std::time::SystemTime`, carried through the library as an opaque value.
#[verifier::external_type_specification]
#[verifier::external_body]
pub struct ExSystemTime(SystemTime);

/// Reads the system clock through `SystemTime::now()`. The value depends on
/// the moment of the call, so nothing is stated of it.
#[verifier::external_body]
pub(crate) fn now() -> SystemTime {
    SystemTime::now()
}

/// Whole seconds from `earlier` to `later` as `SystemTime::duration_since`
/// and `Duration::as_secs` give them, 0 where `earlier` is the later one:
/// a function of the two time values alone.
pub uninterp spec fn secs_apart(later: SystemTime, earlier: SystemTime) -> u64;

/// See [`secs_apart`]; the error of `duration_since` becomes 0.
#[verifier::external_body]
pub(crate) fn secs_between(later: SystemTime, earlier: SystemTime) -> (r: u64)
    ensures
        r == secs_apart(later, earlier),
{
    later.duration_since(earlier).unwrap_or_default().as_secs()
}

/// Whole seconds from the epoch to `t`, 0 for a time before it, as
/// `SystemTime::duration_since(UNIX_EPOCH)` and `Duration::as_secs` give
/// them: a function of the time value alone.
pub uninterp spec fn unix_secs(t: SystemTime) -> u64;

/// See [`unix_secs`]; the error of `duration_since` becomes 0.
#[verifier::external_body]
pub(crate) fn secs_since_epoch(t: SystemTime) -> (r: u64)
    ensures
        r == unix_secs(t),
{
    t.duration_since(std::time::UNIX_EPOCH).unwrap_or_default().as_secs()
}

/// Where `t` lies from the epoch, as `SystemTime::duration_since(UNIX_EPOCH)`
/// and `Duration::as_nanos` give it: `Ok` with the nanoseconds after it, or
/// `Err` with those before it (the error's duration). A function of the
/// time value alone.
pub uninterp spec fn epoch_offset(t: SystemTime) -> Result<u128, u128>;

/// See [`epoch_offset`].
#[verifier::external_body]
pub(crate) fn since_epoch(t: SystemTime) -> (r: Result<u128, u128>)
    ensures
        r == epoch_offset(t),
{
    match t.duration_since(std::time::UNIX_EPOCH) {
        Ok(d) => Ok(d.as_nanos()),
        Err(e) => Err(e.duration().as_nanos()),
    }
}
} // verus!
