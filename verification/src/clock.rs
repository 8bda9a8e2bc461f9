//! Reading the clocks: wall-clock seconds for note timestamps and the monotonic clock for
//! autosave timing. What a clock reads is not a function of anything the program holds,
//! so nothing is stated of the readings themselves.
use vstd::prelude::*;

verus! {

/// `std::time::SystemTime`, a reading of the wall clock.
#[verifier::external_type_specification]
#[verifier::external_body]
pub struct ExSystemTime(std::time::SystemTime);

/// `std::time::SystemTimeError`, a wall-clock reading earlier than the reference point.
#[verifier::external_type_specification]
#[verifier::external_body]
pub struct ExSystemTimeError(std::time::SystemTimeError);

/// `std::time::Instant`, a reading of the monotonic clock.
#[verifier::external_type_specification]
#[verifier::external_body]
pub struct ExInstant(std::time::Instant);

/// The current wall-clock time (`SystemTime::now`).
#[verifier::external_body]
fn system_now() -> std::time::SystemTime {
    std::time::SystemTime::now()
}

/// How long after the Unix epoch `t` is, or an error when it is earlier
/// (`SystemTime::duration_since(UNIX_EPOCH)`).
#[verifier::external_body]
fn since_epoch(t: &std::time::SystemTime) -> Result<core::time::Duration, std::time::SystemTimeError> {
    t.duration_since(std::time::UNIX_EPOCH)
}

/// The whole seconds in `d` (`Duration::as_secs`).
#[verifier::external_body]
fn whole_seconds(d: &core::time::Duration) -> u64 {
    d.as_secs()
}

/// The whole milliseconds in `d` (`Duration::as_millis`).
#[verifier::external_body]
fn whole_millis(d: &core::time::Duration) -> u128 {
    d.as_millis()
}

/// The current reading of the monotonic clock (`Instant::now`).
#[verifier::external_body]
pub(crate) fn instant_now() -> std::time::Instant {
    std::time::Instant::now()
}

/// How much time has passed since `t` (`Instant::elapsed`).
#[verifier::external_body]
fn instant_elapsed(t: &std::time::Instant) -> core::time::Duration {
    t.elapsed()
}

/// Whole milliseconds that have passed since `t`.
pub(crate) fn elapsed_millis(t: &std::time::Instant) -> u128 {
    whole_millis(&instant_elapsed(t))
}

/// Seconds since the Unix epoch, or 0 when the wall clock reads earlier than the epoch.
pub fn unix_time() -> u64 {
    match since_epoch(&system_now()) {
        Ok(duration) => whole_seconds(&duration),
        Err(_) => 0,
    }
}

} // verus!
