//! Reading the system clock.

use vstd::prelude::*;

verus! {

/// Whole seconds since the Unix epoch by `std::time::SystemTime::now()`,
/// or `None` when the clock reads before the epoch. Nothing is promised of
/// the value: it is the machine's time.
#[verifier::external_body]
pub(crate) fn unix_time_secs() -> (t: Option<u64>) {
    std::time::SystemTime::now().duration_since(std::time::UNIX_EPOCH).ok().map(|d| d.as_secs())
}

/// Nanoseconds since the Unix epoch by `std::time::SystemTime::now()`,
/// or `None` when the clock reads before the epoch. Nothing is promised of
/// the value: it is the machine's time.
#[verifier::external_body]
pub(crate) fn unix_time_nanos() -> (t: Option<u128>) {
    std::time::SystemTime::now().duration_since(std::time::UNIX_EPOCH).ok().map(|d| d.as_nanos())
}

} // verus!
