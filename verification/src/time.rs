//! The wall clock, read in whole seconds since the Unix epoch.

use std::time::{Duration, SystemTime, UNIX_EPOCH};
use vstd::prelude::*;

verus! {

#[verifier::external_type_specification]
#[verifier::external_body]
pub struct ExSystemTime(std::time::SystemTime);

/// `SystemTime::now`: the wall clock's reading. Nothing is promised of it.
#[verifier::external_body]
fn wall_clock() -> SystemTime {
    SystemTime::now()
}

/// `SystemTime::duration_since`, taken from the Unix epoch: the time that
/// has passed since the epoch, or `None` for a reading that lies before it.
#[verifier::external_body]
fn since_epoch(reading: &SystemTime) -> Option<Duration> {
    reading.duration_since(UNIX_EPOCH).ok()
}

/// `SystemTime::checked_sub`: the reading moved back by `span`, or `None`
/// where that cannot be represented.
#[verifier::external_body]
fn moved_back(reading: &SystemTime, span: Duration) -> Option<SystemTime> {
    reading.checked_sub(span)
}

/// `Duration::as_secs`: the whole seconds of a span.
#[verifier::external_body]
fn whole_seconds(span: &Duration) -> u64 {
    span.as_secs()
}

/// The seconds that were found, or 0 where none were.
fn seconds_or_zero(seconds: Option<u64>) -> (r: u64)
    ensures
        r == match seconds {
            Some(s) => s,
            None => 0,
        },
{
    match seconds {
        Some(s) => s,
        None => 0,
    }
}

/// Whole seconds from the epoch to a reading; 0 for a reading before it.
fn epoch_seconds(reading: &SystemTime) -> u64 {
    let seconds = match since_epoch(reading) {
        Some(span) => Some(whole_seconds(&span)),
        None => None,
    };
    seconds_or_zero(seconds)
}

/// The present time in whole seconds since the Unix epoch.
pub(crate) fn unix_seconds() -> u64 {
    let reading = wall_clock();
    epoch_seconds(&reading)
}

/// The time `span` ago in whole seconds since the Unix epoch; 0 where that
/// lies before the epoch.
pub(crate) fn cutoff_seconds(span: Duration) -> u64 {
    let reading = wall_clock();
    let seconds = match moved_back(&reading, span) {
        Some(past) => Some(epoch_seconds(&past)),
        None => None,
    };
    seconds_or_zero(seconds)
}

} // verus!
