//! The wall clock, read through the standard library.

use std::time::{Duration, SystemTime};
use vstd::prelude::*;

verus! {

#[verifier::external_type_specification]
#[verifier::external_body]
pub struct ExSystemTime(SystemTime);

/// Calls `SystemTime::now`. Nothing is claimed of the time it returns.
#[verifier::external_body]
fn system_now() -> (r: SystemTime) {
    SystemTime::now()
}

/// Calls `SystemTime::duration_since` with the Unix epoch. Nothing is
/// claimed of the result; a time before the epoch gives `None`.
#[verifier::external_body]
fn since_epoch(time: &SystemTime) -> (r: Option<Duration>) {
    match time.duration_since(SystemTime::UNIX_EPOCH) {
        Ok(elapsed) => Some(elapsed),
        Err(_) => None,
    }
}

/// Calls `Duration::as_secs`. Nothing is claimed of the number it returns.
#[verifier::external_body]
fn whole_seconds(elapsed: &Duration) -> (r: u64) {
    elapsed.as_secs()
}

/// The seconds that have passed since the Unix epoch, and 0 where the
/// clock stands before it.
pub fn unix_timestamp() -> u64 {
    let now = system_now();
    let elapsed: Option<u64> = match since_epoch(&now) {
        Some(elapsed) => Some(whole_seconds(&elapsed)),
        None => None,
    };
    timestamp_of(elapsed)
}

/// The timestamp that a reading of the clock gives: the whole seconds since
/// the Unix epoch where the clock stands behind it, and 0 where it stands
/// before it.
pub fn timestamp_of(elapsed: Option<u64>) -> (r: u64)
    ensures
        r == match elapsed {
            Some(seconds) => seconds,
            None => 0,
        },
{
    match elapsed {
        Some(seconds) => seconds,
        None => 0,
    }
}

} // verus!
