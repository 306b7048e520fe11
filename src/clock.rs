//! The current time, read from the system clock.
use vstd::prelude::*;

verus! {

/// Relies on chrono's `From<SystemTime> for DateTime<Utc>` and
/// `DateTime::timestamp_millis`: the system time in milliseconds since the
/// Unix epoch, negative for a clock set before 1970. Nothing is promised of the
/// value, which depends on the clock. The conversion handles times on both
/// sides of the epoch without panicking; it fails only outside chrono's range
/// of about 262,000 years, which a system clock cannot reach.
#[verifier::external_body]
pub fn now_millis() -> (r: i64) {
    chrono::DateTime::<chrono::Utc>::from(std::time::SystemTime::now()).timestamp_millis()
}

} // verus!
