//! The wall clock, read through `chrono` and clamped into the `u32`
//! seconds field of the record header.

use vstd::prelude::*;

verus! {

/// Relies on `chrono::Utc::now` and `chrono::DateTime::timestamp`:
/// the current wall-clock time as whole seconds since the epoch.
/// Nothing can be promised of a clock reading.
#[verifier::external_body]
fn now_timestamp_raw() -> i64 {
    chrono::Utc::now().timestamp()
}

/// The current wall-clock time clamped into `1..=u32::MAX`, the range
/// the record header's timestamp field can carry. The floor of 1 keeps
/// every written timestamp above the sentinel 0 that hint replay uses.
pub fn clock_secs() -> (r: u32)
    ensures
        r >= 1,
{
    let t = now_timestamp_raw();
    if t < 1 {
        1
    } else if t > u32::MAX as i64 {
        u32::MAX
    } else {
        t as u32
    }
}

} // verus!
