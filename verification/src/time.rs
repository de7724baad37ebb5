//! Points in time (UTC), as the token expiry logic reads them.
use vstd::prelude::*;

verus! {

/// A point in time: seconds since the Unix epoch, and nanoseconds within the second.
#[derive(Debug, Clone, Copy, PartialEq, Eq)]
pub struct UtcTime {
    pub secs: i64,
    pub nanos: u32,
}

/// The seconds of the first instant that chrono represents: January 1, 262144 BCE.
pub const MIN_UTC_SECS: i64 = -8_334_601_228_800;

/// The seconds of the last second that chrono represents: December 31, 262142 CE, 23:59:59.
pub const MAX_UTC_SECS: i64 = 8_210_266_876_799;

/// Whether chrono represents the given timestamp as a date and time: the seconds lie in its
/// range of dates, and the nanoseconds are those of an ordinary second, or of a leap second
/// (up to two seconds' worth) on the last second of a minute.
pub open spec fn utc_timestamp_valid(secs: i64, nanos: u32) -> bool {
    &&& MIN_UTC_SECS <= secs <= MAX_UTC_SECS
    &&& (nanos < 1_000_000_000 || (nanos < 2_000_000_000 && secs % 60 == 59))
}

/// A bound on the seconds of every time that chrono represents: its dates span about
/// 262,000 years on either side of the epoch.
pub const CHRONO_SECS_BOUND: i64 = 8_400_000_000_000;

/// Whether a time lies in the range that chrono can represent at all, with the
/// nanoseconds of an ordinary (not leap) second.
pub open spec fn utc_in_range(t: UtcTime) -> bool {
    -CHRONO_SECS_BOUND <= t.secs <= CHRONO_SECS_BOUND && t.nanos < 1_000_000_000
}

/// Whether `a` comes before `b`: by seconds, then by nanoseconds.
pub open spec fn utc_before(a: UtcTime, b: UtcTime) -> bool {
    a.secs < b.secs || (a.secs == b.secs && a.nanos < b.nanos)
}

/// `chrono::DateTime::from_timestamp` succeeds for these seconds and nanoseconds. Trusted:
/// it succeeds exactly on chrono's range of dates (years 262144 BCE to 262142 CE, as
/// `NaiveDate::MIN` and `MAX` are) with the nanosecond rule of
/// `NaiveTime::from_num_seconds_from_midnight_opt`.
#[verifier::external_body]
pub(crate) fn utc_timestamp_is_valid(secs: i64, nanos: u32) -> (r: bool)
    ensures
        r == utc_timestamp_valid(secs, nanos),
{
    chrono::DateTime::from_timestamp(secs, nanos).is_some()
}

/// The current time, from `chrono::Utc::now`. Trusted: it claims only that chrono represents
/// the result (`timestamp` and `timestamp_subsec_nanos` round-trip through `from_timestamp`),
/// that it lies in chrono's range of dates, and that its nanoseconds are those of an ordinary
/// second, as `Utc::now` builds it from `SystemTime` with `from_timestamp(secs, subsec_nanos)`;
/// the value itself depends on the clock.
#[verifier::external_body]
pub fn now_dt() -> (r: UtcTime)
    ensures
        utc_timestamp_valid(r.secs, r.nanos),
        utc_in_range(r),
{
    let now = chrono::Utc::now();
    UtcTime { secs: now.timestamp(), nanos: now.timestamp_subsec_nanos() }
}

/// The point in time `i` seconds after the Unix epoch, if chrono can represent it.
pub fn i64_to_datetime(i: i64) -> (r: Result<UtcTime, String>)
    ensures
        match r {
            Ok(t) => utc_timestamp_valid(i, 0) && t == (UtcTime { secs: i, nanos: 0 }),
            Err(e) => !utc_timestamp_valid(i, 0) && e@ == "Failed to convert i64 to DateTime"@,
        },
{
    if utc_timestamp_is_valid(i, 0) {
        Ok(UtcTime { secs: i, nanos: 0 })
    } else {
        Err("Failed to convert i64 to DateTime".to_owned())
    }
}

impl UtcTime {
    /// Whether this time comes before `other`.
    pub fn is_before(&self, other: &UtcTime) -> (r: bool)
        ensures
            r == utc_before(*self, *other),
    {
        self.secs < other.secs || (self.secs == other.secs && self.nanos < other.nanos)
    }
}

} // verus!
