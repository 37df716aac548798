//! The wall clock.

use vstd::prelude::*;

verus! {

/// Relies on std's `SystemTime::elapsed` (from `UNIX_EPOCH`): whole seconds
/// since the epoch, 0 when the clock reads earlier than the epoch. Nothing is
/// promised of the value.
#[verifier::external_body]
pub(crate) fn now_secs() -> u64 {
    std::time::UNIX_EPOCH.elapsed().map(|d| d.as_secs()).unwrap_or(0)
}

} // verus!
