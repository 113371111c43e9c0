//! Calendar-day bucketing in an album's IANA time zone.
//!
//! What the zone database computes is named, not restated: `day_of` stands
//! for the Unix timestamp of local midnight on the day that holds `ts` in the
//! given zone.  Both results depend on the arguments alone: the zone tables
//! are compiled into the chrono-tz crate.

use vstd::prelude::*;

verus! {

/// The Unix timestamp of local midnight on the calendar day holding `ts` in
/// the named zone.
pub uninterp spec fn day_of(ts: int, zone: Seq<u8>) -> int;

/// Whether the bytes name an IANA zone that chrono-tz knows.
pub uninterp spec fn zone_ok(zone: Seq<u8>) -> bool;

/// Whether the zone database can place `ts` on a representable local day
/// (chrono's range, and a local midnight that exists).
pub uninterp spec fn day_in_range(ts: int, zone: Seq<u8>) -> bool;

/// Relies on `str::parse::<chrono_tz::Tz>`: a name parses exactly when it is
/// an IANA zone name in the compiled-in table.
#[verifier::external_body]
pub fn zone_exists(zone: &[u8]) -> (r: bool)
    ensures
        r == zone_ok(zone@),
{
    match std::str::from_utf8(zone) {
        Ok(s) => s.parse::<chrono_tz::Tz>().is_ok(),
        Err(_) => false,
    }
}

/// Relies on chrono and chrono-tz: interpret `ts` in the zone, truncate to
/// `00:00:00` local, convert back to a Unix timestamp.  `None` when the name
/// is no zone or the instant cannot be represented (a midnight skipped by a
/// daylight-saving gap, or a timestamp outside chrono's range).
#[verifier::external_body]
pub fn day_bucket(ts: i64, zone: &[u8]) -> (r: Option<i64>)
    ensures
        r matches Some(d) ==> d == day_of(ts as int, zone@),
        r is Some ==> zone_ok(zone@) && day_in_range(ts as int, zone@),
        r is None ==> !(zone_ok(zone@) && day_in_range(ts as int, zone@)),
{
    let tz: chrono_tz::Tz = std::str::from_utf8(zone).ok()?.parse().ok()?;
    let day = chrono::TimeZone::timestamp_opt(&tz, ts, 0).single()?.date_naive();
    let midnight = chrono::TimeZone::from_local_datetime(&tz, &day.and_hms_opt(0, 0, 0)?)
        .earliest()?;
    Some(midnight.timestamp())
}

/// Relies on `chrono::Utc::now`: the current Unix timestamp.  The result
/// depends on the clock, so nothing is promised of it.
#[verifier::external_body]
pub fn now_ts() -> i64 {
    chrono::Utc::now().timestamp()
}

} // verus!
