//! The one clock read the library needs: history entries carry a creation
//! timestamp in seconds.

use vstd::prelude::*;

verus! {

/// Relies on std's `SystemTime::now`: seconds since the Unix epoch. The
/// reading depends on the wall clock, so nothing is promised beyond the
/// value never being negative; a clock before the epoch reads as zero.
#[verifier::external_body]
pub fn current_timestamp() -> (r: i64)
    ensures
        r >= 0,
{
    std::time::SystemTime::now().duration_since(std::time::UNIX_EPOCH).ok().and_then(
        |d| i64::try_from(d.as_secs()).ok(),
    ).unwrap_or(0)
}

} // verus!
