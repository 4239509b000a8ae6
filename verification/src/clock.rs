//! The monotonic clock and the wall clock, as the library reads them.

use vstd::prelude::*;

verus! {

#[verifier::external_type_specification]
#[verifier::external_body]
pub struct ExInstant(std::time::Instant);

/// `std::time::Instant::now`: a point on the monotonic clock. Nothing is
/// promised of it.
#[verifier::external_body]
pub(crate) fn instant_now() -> std::time::Instant {
    std::time::Instant::now()
}

/// `std::time::Instant::elapsed`, in whole milliseconds: how long ago
/// `since` was. Nothing is promised of the value; it depends on the time.
#[verifier::external_body]
pub(crate) fn elapsed_ms(since: &std::time::Instant) -> u64 {
    since.elapsed().as_millis() as u64
}

/// `std::time::SystemTime::now` as a duration since the Unix epoch, in
/// milliseconds, or zero for a clock set before the epoch. Nothing is
/// promised of the value; it depends on the time.
#[verifier::external_body]
pub(crate) fn unix_time_ms() -> u64 {
    std::time::SystemTime::now()
        .duration_since(std::time::UNIX_EPOCH)
        .map(|d| d.as_millis() as u64)
        .unwrap_or(0)
}

/// The seconds since the Unix epoch, in decimal.
pub fn current_unix_secs_string() -> (s: String)
    ensures
        exists|secs: u64| s@ == crate::text::decimal(secs as nat),
{
    crate::text::decimal_string(unix_time_ms() / 1000)
}

} // verus!
