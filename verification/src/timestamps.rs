//! Timestamps as Unix seconds, with the conversions the codec needs from
//! the `time` crate: range validation, RFC 3339 parsing, and the current
//! time for fallback values.

use vstd::prelude::*;

verus! {

/// The seconds range `time::OffsetDateTime` can represent, from the
/// start of year -9999 to the end of year 9999.
pub open spec fn ts_in_range(ts: i64) -> bool {
    -377705116800 <= ts <= 253402300799
}

/// Relies on `time::OffsetDateTime::from_unix_timestamp`: it accepts
/// exactly the timestamps whose date lies in the representable year
/// range -9999..=9999, the seconds range stated by `ts_in_range`.
#[verifier::external_body]
pub fn timestamp_in_range(ts: i64) -> (r: bool)
    ensures
        r == ts_in_range(ts),
{
    time::OffsetDateTime::from_unix_timestamp(ts).is_ok()
}

/// The Unix seconds denoted by an RFC 3339 string, or nothing when the
/// string does not parse. The result depends on the characters alone.
pub uninterp spec fn rfc3339_unix(s: Seq<char>) -> Option<i64>;

/// Relies on `time::OffsetDateTime::parse` with the RFC 3339 format
/// description: parsing is a function of the input characters alone, and
/// `unix_timestamp` converts the parsed instant to Unix seconds.
#[verifier::external_body]
pub fn parse_rfc3339_unix(s: &str) -> (r: Option<i64>)
    ensures
        r == rfc3339_unix(s@),
{
    time::OffsetDateTime::parse(s, &time::format_description::well_known::Rfc3339)
        .ok()
        .map(|d| d.unix_timestamp())
}

/// Relies on `time::OffsetDateTime::now_local`: the local wall-clock
/// time, when the local offset can be determined. Nothing is promised of
/// the value.
#[verifier::external_body]
pub fn now_local_unix() -> (r: Option<i64>) {
    time::OffsetDateTime::now_local().ok().map(|d| d.unix_timestamp())
}

/// Relies on `time::OffsetDateTime::now_utc`: the current UTC time.
/// Nothing is promised of the value.
#[verifier::external_body]
pub fn now_utc_unix() -> (r: i64) {
    time::OffsetDateTime::now_utc().unix_timestamp()
}

/// The current time in Unix seconds: local when available, UTC
/// otherwise. Callers pass it to the codec as the fallback for missing
/// or invalid creation dates.
pub fn current_unix_time() -> i64 {
    match now_local_unix() {
        Option::Some(t) => t,
        Option::None => now_utc_unix(),
    }
}

} // verus!
