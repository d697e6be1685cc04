//! Wall-clock access. The clock is the one outside dependency of the
//! library's logic: every operation takes the current time as a plain
//! argument, so the functions here only produce that argument.

use vstd::prelude::*;

verus! {

/// Relies on chrono's `Utc::now` and `DateTime::timestamp`: the current
/// wall-clock time as whole seconds since the Unix epoch. Nothing is
/// promised of the value, which depends on the machine's clock; chrono
/// itself panics on this platform when the clock reads before 1970.
#[verifier::external_body]
fn chrono_now_seconds() -> i64 {
    chrono::Utc::now().timestamp()
}

/// The current wall-clock time in seconds since the Unix epoch; a clock
/// set before the epoch reads as zero. Nothing can be promised of the
/// value: callers hand it to the aggregate's operations, which are
/// verified for every value.
pub fn current_unix_seconds() -> u64 {
    let t = chrono_now_seconds();
    if t < 0 {
        0
    } else {
        t as u64
    }
}

} // verus!
