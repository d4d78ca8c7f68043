//! Wall-clock time, read through chrono.
use vstd::prelude::*;

verus! {

/// Relies on chrono's `From<SystemTime> for DateTime<Utc>` and
/// `DateTime::timestamp_millis`: the current wall-clock time as milliseconds
/// since the Unix epoch, negative for a clock set before the epoch (the
/// conversion fails only some 262,000 years away from it). It depends on the
/// machine's clock, so nothing is stated of the value.
#[verifier::external_body]
fn wall_clock_ms() -> (r: i64) {
    chrono::DateTime::<chrono::Utc>::from(std::time::SystemTime::now()).timestamp_millis()
}

/// The current wall-clock time in milliseconds since the Unix epoch; a clock
/// set before the epoch reads as 0.
pub fn now_ms() -> (r: u64) {
    let t = wall_clock_ms();
    if t < 0 {
        0
    } else {
        t as u64
    }
}

} // verus!
