//! The wall clock.

use vstd::prelude::*;

verus! {

/// `chrono::Utc::now` read through `DateTime::timestamp_millis`: the current
/// time in milliseconds since the Unix epoch. Nothing is claimed of the
/// value. chrono stops the process where the system clock stands before the
/// epoch.
#[verifier::external_body]
pub(crate) fn now_millis() -> (now: i64) {
    chrono::Utc::now().timestamp_millis()
}

} // verus!
