//! The wall clock, read through `std::time`.

use vstd::prelude::*;
use core::time::Duration;

verus! {

/// `UNIX_EPOCH.elapsed()`: the time since the epoch, or `None` where the
/// clock stands before it.  Nothing is claimed of the value: it is the time.
#[verifier::external_body]
fn unix_elapsed() -> (r: Option<Duration>) {
    match std::time::UNIX_EPOCH.elapsed() {
        Ok(d) => Some(d),
        Err(_) => None,
    }
}

/// `Duration::as_nanos`.  Nothing is claimed of the value beyond its type.
#[verifier::external_body]
fn duration_nanos(d: &Duration) -> (r: u128) {
    d.as_nanos()
}

/// `Duration::as_millis`.  Nothing is claimed of the value beyond its type.
#[verifier::external_body]
fn duration_millis(d: &Duration) -> (r: u128) {
    d.as_millis()
}

/// Nanoseconds since the Unix epoch, 0 if the clock is set before it.
pub fn now_nanos() -> u128 {
    match unix_elapsed() {
        Some(d) => duration_nanos(&d),
        None => 0,
    }
}

/// Milliseconds since the Unix epoch, 0 if the clock is set before it.
pub fn now_millis() -> i64 {
    match unix_elapsed() {
        Some(d) => duration_millis(&d) as i64,
        None => 0,
    }
}

} // verus!
