//! Google Calendar request parameters.

use vstd::prelude::*;

use crate::time::{format_rfc3339_utc_secs, rfc3339_utc_secs_text, Moment, MIN_SECS};

verus! {

/// Events are listed from six hours before now, so that meetings in
/// progress are still seen.
pub const LOOKBACK_SECS: i64 = 6 * 3600;

/// The `timeMin` parameter: six hours before `now_utc`, in RFC 3339 with
/// whole seconds and a `+00:00` offset.
pub fn time_min(now_utc: Moment) -> (r: String)
    requires
        now_utc.wf(),
        MIN_SECS <= now_utc.secs - LOOKBACK_SECS,
    ensures
        r@ == rfc3339_utc_secs_text((now_utc.secs - LOOKBACK_SECS) as i64, now_utc.nanos),
{
    format_rfc3339_utc_secs(now_utc.secs - LOOKBACK_SECS, now_utc.nanos)
}

} // verus!
