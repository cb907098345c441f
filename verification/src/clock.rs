//! The one clock access the planner needs.

use vstd::prelude::*;

verus! {

/// Relies on chrono's `Local::now` and its `%Y-%m-%d` formatting: the
/// current local calendar date as text.  The value depends on the
/// clock, so nothing is promised of it; every caller states what
/// holds whatever date comes back.
#[verifier::external_body]
pub fn today_string() -> (r: String) {
    chrono::Local::now().format("%Y-%m-%d").to_string()
}

} // verus!
