//! The time of day.

use vstd::prelude::*;

verus! {

/// `std::time::SystemTime::elapsed`, from the start of 1970: the whole seconds
/// that the machine's clock is past it; none if the clock is set before it.
/// Nothing is claimed of the result, which is the machine's.
#[verifier::external_body]
fn unix_clock() -> (secs: Option<u64>) {
    std::time::UNIX_EPOCH.elapsed().ok().map(|d| d.as_secs())
}

/// A reading of the clock as a time: 0 if it is set before the start of 1970.
pub fn reading(secs: Option<u64>) -> (t: u64)
    ensures
        t == match secs {
            Some(s) => s,
            None => 0,
        },
{
    match secs {
        Some(s) => s,
        None => 0,
    }
}

/// The present time in seconds from the start of 1970, by the machine's clock;
/// 0 if that is set before it.
pub fn now_unix() -> (t: u64) {
    reading(unix_clock())
}

} // verus!
