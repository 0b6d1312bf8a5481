//! The one place the library reads the clock.

use vstd::prelude::*;

verus! {

/// Relies on chrono's `DateTime::<Utc>::from(SystemTime)` and
/// `DateTime::timestamp` for the current Unix time in seconds. The
/// conversion represents a system clock set before the epoch as a
/// negative timestamp instead of failing, which `Utc::now` would not.
/// Nothing can be promised of what the clock returns.
#[verifier::external_body]
pub(crate) fn now_timestamp() -> i64 {
    chrono::DateTime::<chrono::Utc>::from(std::time::SystemTime::now()).timestamp()
}

} // verus!
