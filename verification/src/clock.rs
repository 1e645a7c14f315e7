//! Fresh values from the environment: the wall clock and random identifiers.

use std::time::{Duration, SystemTime, SystemTimeError};
use vstd::prelude::*;

verus! {

#[verifier::external_type_specification]
#[verifier::external_body]
pub struct ExSystemTime(SystemTime);

#[verifier::external_type_specification]
#[verifier::external_body]
pub struct ExSystemTimeError(SystemTimeError);

/// `SystemTime::now()`: the current wall-clock time; nothing is promised of it.
#[verifier::external_body]
fn wall_clock() -> SystemTime {
    SystemTime::now()
}

/// `SystemTime::duration_since(UNIX_EPOCH)`: how long after the Unix epoch `t` is,
/// or an error when `t` is earlier.
#[verifier::external_body]
fn since_unix_epoch(t: &SystemTime) -> Result<Duration, SystemTimeError> {
    t.duration_since(std::time::UNIX_EPOCH)
}

/// `Duration::as_millis`: the whole milliseconds of `d`.
#[verifier::external_body]
fn whole_millis(d: &Duration) -> u128 {
    d.as_millis()
}

/// The timestamp for a clock reading: the whole milliseconds since the Unix epoch,
/// cut to `i64` as `as` does, or 0 when the clock read earlier than the epoch.
pub open spec fn stamp_of(elapsed_ms: Option<u128>) -> i64 {
    match elapsed_ms {
        Some(m) => m as i64,
        None => 0,
    }
}

/// Turns a clock reading (milliseconds since the epoch, `None` when the clock read
/// earlier) into a timestamp.
pub fn epoch_millis(elapsed_ms: Option<u128>) -> (r: i64)
    ensures
        r == stamp_of(elapsed_ms),
{
    match elapsed_ms {
        Some(m) => m as i64,
        None => 0,
    }
}

/// Milliseconds since the Unix epoch (0 when the clock reads earlier). Nothing is
/// promised of the value: it is the time, and every `i64` is the stamp of some reading.
pub fn now_ms() -> i64 {
    let elapsed_ms = match since_unix_epoch(&wall_clock()) {
        Ok(d) => Some(whole_millis(&d)),
        Err(_) => None,
    };
    epoch_millis(elapsed_ms)
}

/// `Uuid::new_v4().to_string()`: a random UUID in its 36-character hyphenated form.
#[verifier::external_body]
pub(crate) fn new_id() -> (id: String)
    ensures
        id@.len() == 36,
{
    uuid::Uuid::new_v4().to_string()
}

} // verus!
