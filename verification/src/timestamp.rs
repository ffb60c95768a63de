//! Points in time, as seconds since the epoch.

use chrono::DateTime;
use vstd::prelude::*;

verus! {

/// `chrono::DateTime::from_timestamp` of whole seconds, and `timestamp` of what it makes: the same
/// seconds again, where they lie in the range of dates that `chrono` has, as all seconds of 32 bits
/// do. Which other seconds lie in that range is left unsaid.
#[verifier::external_body]
pub(crate) fn utc_seconds(secs: i64) -> (r: Option<i64>)
    ensures
        r matches Some(s) ==> s == secs,
        0 <= secs <= u32::MAX ==> r is Some,
{
    DateTime::from_timestamp(secs, 0).map(|date| date.timestamp())
}

} // verus!
