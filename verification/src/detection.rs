//! The result vocabulary shared by detectors: capture timestamps and
//! reliability grades.

use vstd::prelude::*;
use std::time::{Duration, SystemTime, UNIX_EPOCH};

verus! {

/// Wall-clock capture timestamp in milliseconds since the Unix epoch.
#[derive(Debug, Clone, Copy, PartialEq, Eq, PartialOrd, Ord, Hash)]
pub struct Timestamp(pub u128);

/// The system clock's time (`std::time::SystemTime`), held opaque.
#[verifier::external_type_specification]
#[verifier::external_body]
pub struct ExSystemTime(SystemTime);

/// Calls `SystemTime::now`. What it returns depends on the time of the
/// call, so nothing is stated of it.
#[verifier::external_body]
fn system_now() -> SystemTime {
    SystemTime::now()
}

/// Calls `SystemTime::duration_since(UNIX_EPOCH)`: the time elapsed since
/// the epoch, or `None` (its error) when the clock reads before the
/// epoch. Which comes back depends on the clock, so nothing is stated.
#[verifier::external_body]
fn since_epoch(time: &SystemTime) -> Option<Duration> {
    match time.duration_since(UNIX_EPOCH) {
        Ok(elapsed) => Some(elapsed),
        Err(_) => None,
    }
}

/// Calls `Duration::as_millis`, the whole milliseconds a `Duration` holds.
/// A `Duration` spans at most `u64::MAX` seconds and 999,999,999
/// nanoseconds, so they are at most `u64::MAX * 1000 + 999`; the value
/// itself is not named, since `Duration` is opaque here.
#[verifier::external_body]
fn whole_millis(elapsed: &Duration) -> (r: u128)
    ensures
        r <= (u64::MAX as int) * 1000 + 999,
{
    elapsed.as_millis()
}

impl Timestamp {
    /// The timestamp of a clock reading: its milliseconds, or 0 when the
    /// clock read before the epoch.
    pub fn from_clock(reading: Option<u128>) -> (r: Timestamp)
        ensures
            r.0 == match reading {
                Some(millis) => millis,
                None => 0,
            },
    {
        match reading {
            Some(millis) => Timestamp(millis),
            None => Timestamp(0),
        }
    }

    /// Capture "now" as a timestamp: the clock's milliseconds since the
    /// epoch (0 before it), at most what a `Duration` can hold.
    pub fn now() -> (r: Timestamp)
        ensures
            r.0 <= (u64::MAX as int) * 1000 + 999,
    {
        let reading = match since_epoch(&system_now()) {
            Some(elapsed) => Some(whole_millis(&elapsed)),
            None => None,
        };
        Timestamp::from_clock(reading)
    }
}

/// A qualitative estimate of how trustworthy the technique behind a
/// detection is, independent of the numeric confidence of this one sample.
#[derive(Debug, Clone, Copy, PartialEq, Eq, Structural)]
pub enum Reliability {
    /// Backed by multiple independent signals (e.g. geometry + OCR).
    Corroborated,
    /// A single geometric/color heuristic with no independent confirmation.
    Heuristic,
    /// Derived purely from history/prediction with no direct evidence this
    /// frame (e.g. an object presumed present during brief occlusion).
    Predicted,
    /// Detection failed outright.
    Unreliable,
}

} // verus!
