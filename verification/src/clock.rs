//! Millisecond timestamps from the system clock.

use vstd::prelude::*;
use std::time::{Duration, SystemTime, SystemTimeError};

verus! {

/// `std::time::SystemTime`: a reading of the system clock, carried through
/// without a look inside.
#[verifier::external_type_specification]
#[verifier::external_body]
pub struct ExSystemTime(std::time::SystemTime);

/// `std::time::SystemTimeError`: the error of `SystemTime::duration_since`,
/// carried through without a look inside.
#[verifier::external_type_specification]
#[verifier::external_body]
pub struct ExSystemTimeError(std::time::SystemTimeError);

/// `SystemTime::now`: the reading of the system clock. Nothing is claimed of it.
pub assume_specification[ std::time::SystemTime::now ]() -> (now: SystemTime)
;

/// `SystemTime::duration_since`: the time from `earlier` to `this`, or an
/// error where `earlier` is the later of the two. Nothing is claimed of it.
pub assume_specification[ std::time::SystemTime::duration_since ](
    this: &SystemTime,
    earlier: SystemTime,
) -> (elapsed: Result<Duration, SystemTimeError>)
;

/// `Duration::as_millis`: the whole milliseconds in a duration. Nothing is
/// claimed of it.
pub assume_specification[ std::time::Duration::as_millis ](this: &Duration) -> (millis: u128)
;

/// `std::time::UNIX_EPOCH`: the start of 1970 in UTC as a `SystemTime`.
/// Nothing is claimed of it.
#[verifier::external_body]
fn unix_epoch() -> (epoch: SystemTime) {
    std::time::UNIX_EPOCH
}

/// The timestamp for a count of milliseconds: its low 64 bits.
pub open spec fn timestamp_of(millis: nat) -> nat {
    millis % 0x1_0000_0000_0000_0000
}

/// Computes `timestamp_of`.
pub fn timestamp_from_millis(millis: u128) -> (timestamp: u64)
    ensures
        timestamp == timestamp_of(millis as nat),
{
    (millis % 0x1_0000_0000_0000_0000) as u64
}

/// While the count of milliseconds fits in 64 bits, a delay between two
/// counts is a delay of as much between their timestamps.
pub proof fn lemma_timestamps_keep_delay(earlier: nat, later: nat, delay: nat)
    requires
        earlier + delay <= later <= u64::MAX,
    ensures
        timestamp_of(later) - timestamp_of(earlier) >= delay,
{
}

/// The timestamp for a reading of the clock: for the milliseconds since the
/// Unix epoch their timestamp, and none for a reading that failed.
pub open spec fn timestamp_of_reading(elapsed_millis: Option<u128>) -> Option<u64> {
    match elapsed_millis {
        Some(millis) => Some(timestamp_of(millis as nat) as u64),
        None => None,
    }
}

/// Computes `timestamp_of_reading`.
pub fn timestamp_from_reading(elapsed_millis: Option<u128>) -> (timestamp: Option<u64>)
    ensures
        timestamp == timestamp_of_reading(elapsed_millis),
{
    match elapsed_millis {
        Some(millis) => Some(timestamp_from_millis(millis)),
        None => None,
    }
}

/// Reads the system clock and gives the timestamp of the reading: the
/// milliseconds since the Unix epoch, or `None` where the clock stands before
/// the epoch. Which reading the clock gave is not known here.
pub fn get_precise_time() -> (timestamp: Option<u64>)
    ensures
        exists|elapsed_millis: Option<u128>| timestamp == timestamp_of_reading(elapsed_millis),
{
    let now = SystemTime::now();
    let elapsed_millis = match now.duration_since(unix_epoch()) {
        Ok(elapsed) => Some(elapsed.as_millis()),
        Err(_) => None,
    };
    timestamp_from_reading(elapsed_millis)
}

} // verus!
