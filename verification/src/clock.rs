//! Trusted access to the wall clock.

use vstd::prelude::*;

verus! {

/// Relies on `chrono::Utc::now` (converted with `DateTime::timestamp_millis`):
/// the current time as Unix milliseconds. Nothing is promised of the value;
/// callers state what holds of every outcome.
#[verifier::external_body]
pub(crate) fn now_millis() -> i64 {
    chrono::Utc::now().timestamp_millis()
}

} // verus!
