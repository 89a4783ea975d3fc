//! ISO-8601 rendering of UTC timestamps, through chrono.
//!
//! The snapshot stores each last-mention time as `YYYY-MM-DDTHH:MM:SSZ`.
//! chrono does the calendar arithmetic; the library only relies on the
//! rendering being a function of the timestamp and on chrono reading its
//! own rendering back.

use vstd::prelude::*;
use crate::tracker::TS_LIMIT;

verus! {

/// The ISO-8601 form `YYYY-MM-DDTHH:MM:SSZ` of a UTC timestamp (seconds
/// since the Unix epoch).  A function of the timestamp alone.
pub uninterp spec fn iso_of(t: u64) -> Seq<char>;

/// Relies on chrono's `DateTime::<Utc>::from_timestamp_secs` and
/// `format("%Y-%m-%dT%H:%M:%SZ")`: every timestamp below [`TS_LIMIT`] is
/// in chrono's range and renders with a four-digit year, and the rendering
/// depends on the timestamp alone (UTC has no offset and no locale).
#[verifier::external_body]
pub(crate) fn ts_to_iso(t: u64) -> (r: String)
    requires
        t < TS_LIMIT,
    ensures
        r@ == iso_of(t),
{
    let dt = chrono::DateTime::<chrono::Utc>::from_timestamp_secs(t as i64).unwrap();
    dt.format("%Y-%m-%dT%H:%M:%SZ").to_string()
}

/// Relies on chrono's `NaiveDateTime::parse_from_str` with the same format
/// string, and `and_utc().timestamp()`: parsing a string that
/// `from_timestamp_secs(t).format(..)` rendered recovers `t` (chrono
/// documents that `from_timestamp` round-trips with `timestamp`).  Of any
/// other input nothing is claimed.
#[verifier::external_body]
pub(crate) fn iso_to_ts(s: &str) -> (r: Option<u64>)
    ensures
        forall|t: u64| t < TS_LIMIT && s@ == iso_of(t) ==> r == Some(t),
{
    match chrono::NaiveDateTime::parse_from_str(s, "%Y-%m-%dT%H:%M:%SZ") {
        Ok(dt) => {
            let secs = dt.and_utc().timestamp();
            if 0 <= secs {
                Some(secs as u64)
            } else {
                None
            }
        },
        Err(_) => None,
    }
}

} // verus!
