//! The ambient clock, read through an outside crate.

use vstd::prelude::*;

verus! {

/// Relies on `chrono::Utc::now`: the current instant, as milliseconds since
/// the Unix epoch. The result depends on the machine's clock, so nothing is
/// stated of its value; callers state what holds whatever instant came back.
#[verifier::external_body]
pub(crate) fn now_millis() -> i64 {
    chrono::Utc::now().timestamp_millis()
}

} // verus!
