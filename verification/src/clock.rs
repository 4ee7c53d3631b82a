//! Wall-clock access for timestamps.

use vstd::prelude::*;

verus! {

/// Relies on chrono::Utc::now / timestamp_millis: milliseconds since the
/// Unix epoch.  Nothing is assumed of the value; callers treat it as an
/// arbitrary reading of the clock collaborator.
#[verifier::external_body]
pub(crate) fn now_millis() -> i64 {
    chrono::Utc::now().timestamp_millis()
}

} // verus!
