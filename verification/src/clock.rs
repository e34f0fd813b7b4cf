//! Monotonic timestamps for recording when an action ran, as nanosecond
//! offsets from a fixed run-start instant.

use vstd::prelude::*;

verus! {

#[verifier::external_type_specification]
#[verifier::external_body]
pub struct ExInstant(std::time::Instant);

/// Relies on `Instant::now` for a monotonic timestamp; nothing is promised
/// of the value read from the clock.
#[verifier::external_body]
pub fn instant_now() -> (r: std::time::Instant) {
    std::time::Instant::now()
}

/// Relies on `Instant::duration_since`: the time from `base` to `t`, or zero
/// if `base` is the later of the two; it does not panic.
#[verifier::external_body]
pub fn duration_between(t: &std::time::Instant, base: &std::time::Instant) -> (r:
    std::time::Duration) {
    t.duration_since(*base)
}

/// Relies on `Duration::as_nanos`, truncating the count into a signed 64-bit
/// number of nanoseconds.
#[verifier::external_body]
pub fn duration_nanos(d: &std::time::Duration) -> (r: i64) {
    d.as_nanos() as i64
}

/// Nanoseconds elapsed from `base` to now; what the clock reads is not
/// specified.
pub fn nanos_since(base: &std::time::Instant) -> i64 {
    let now = instant_now();
    let d = duration_between(&now, base);
    duration_nanos(&d)
}

} // verus!
