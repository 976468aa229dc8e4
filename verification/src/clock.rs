//! Wall-clock readings, in microseconds since the Unix epoch.
use std::time::{Duration, SystemTime, SystemTimeError, UNIX_EPOCH};
use vstd::prelude::*;

verus! {

/// A point in wall-clock time, opaque to proofs.
#[verifier::external_type_specification]
#[verifier::external_body]
pub struct ExSystemTime(SystemTime);

/// The error of a reading that lies before the point it is measured from.
#[verifier::external_type_specification]
#[verifier::external_body]
pub struct ExSystemTimeError(SystemTimeError);

/// How long after the Unix epoch `time` lies, or `None` if it lies before it.
pub uninterp spec fn time_since_epoch(time: SystemTime) -> Option<Duration>;

/// The number of whole microseconds in `span`.
pub uninterp spec fn whole_micros(span: Duration) -> u128;

/// Calls `SystemTime::now`. A reading of the clock may be any point in time, so nothing is
/// claimed of it.
#[verifier::external_body]
fn read_clock() -> (time: SystemTime) {
    SystemTime::now()
}

/// Calls `SystemTime::duration_since` with the Unix epoch. The claim is that the answer depends on
/// `time` alone.
#[verifier::external_body]
fn duration_since_epoch(time: SystemTime) -> (elapsed: Result<Duration, SystemTimeError>)
    ensures
        match elapsed {
            Ok(span) => time_since_epoch(time) == Some(span),
            Err(_) => time_since_epoch(time) is None,
        },
{
    time.duration_since(UNIX_EPOCH)
}

/// Calls `Duration::as_micros`. The claim is that the answer depends on `span` alone.
#[verifier::external_body]
fn duration_as_micros(span: Duration) -> (micros: u128)
    ensures
        micros == whole_micros(span),
{
    span.as_micros()
}

/// The timestamp of a clock that shows `elapsed` microseconds since the epoch: zero for a clock
/// that is set before the epoch, and `u64::MAX` where the count does not fit.
pub open spec fn micros_timestamp(elapsed: Option<u128>) -> u64 {
    match elapsed {
        None => 0,
        Some(micros) => if micros <= u64::MAX {
            micros as u64
        } else {
            u64::MAX
        },
    }
}

/// The timestamp of a clock reading.
pub open spec fn reading_timestamp(time: SystemTime) -> u64 {
    micros_timestamp(
        match time_since_epoch(time) {
            Some(span) => Some(whole_micros(span)),
            None => None,
        },
    )
}

/// Converts a count of microseconds since the epoch to a timestamp.
pub fn timestamp_from_micros(elapsed: Option<u128>) -> (timestamp: u64)
    ensures
        timestamp == micros_timestamp(elapsed),
{
    match elapsed {
        None => 0,
        Some(micros) => if micros <= u64::MAX as u128 {
            micros as u64
        } else {
            u64::MAX
        },
    }
}

/// The current wall-clock time in microseconds since the Unix epoch.
pub fn unix_micros() -> (timestamp: u64)
    ensures
        exists|time: SystemTime| timestamp == #[trigger] reading_timestamp(time),
{
    let time = read_clock();
    let elapsed = match duration_since_epoch(time) {
        Ok(span) => Some(duration_as_micros(span)),
        Err(_) => None,
    };
    let timestamp: u64 = timestamp_from_micros(elapsed);
    assert(timestamp == reading_timestamp(time));
    timestamp
}

/// The timestamp of a clock reading is the number of whole microseconds since the epoch, cut at the
/// greatest timestamp, and zero before the epoch.
pub proof fn law_timestamp_counts_microseconds(time: SystemTime, elapsed: Option<u128>)
    ensures
        match time_since_epoch(time) {
            Some(span) => {
                &&& whole_micros(span) <= u64::MAX ==> reading_timestamp(time) == whole_micros(span)
                &&& whole_micros(span) > u64::MAX ==> reading_timestamp(time) == u64::MAX
            },
            None => reading_timestamp(time) == 0,
        },
        match elapsed {
            Some(micros) => {
                &&& micros <= u64::MAX ==> micros_timestamp(elapsed) == micros
                &&& micros > u64::MAX ==> micros_timestamp(elapsed) == u64::MAX
            },
            None => micros_timestamp(elapsed) == 0,
        },
{
}

} // verus!
