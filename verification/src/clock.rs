//! The wall clock, behind a trusted boundary.

use vstd::prelude::*;

verus! {

/// Relies on chrono's `Local::now` and `DateTime::timestamp`: returns the
/// current local time as seconds since the Unix epoch. The result depends on
/// the wall clock, so nothing is promised of its value.
#[verifier::external_body]
pub(crate) fn now_timestamp() -> i64 {
    chrono::Local::now().timestamp()
}

} // verus!
