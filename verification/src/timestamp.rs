//! Timestamp reconciliation.
//!
//! Devices report wall-clock timestamps from their own, possibly
//! unsynchronized, clocks, and without a timezone offset. Two repairs are
//! applied before a timestamp is trusted:
//!
//! * the hour-of-day component is taken from the collector's arrival
//!   timestamp, which resolves the missing timezone information;
//! * if the device timestamp still drifts from the arrival timestamp by
//!   more than a fixed tolerance, the arrival timestamp is used instead.
//!
//! All timestamps are milliseconds since the Unix epoch.

use vstd::prelude::*;

verus! {

/// Maximum tolerated difference between a device timestamp and the
/// arrival timestamp before the device clock is considered wrong.
pub const DRIFT_TOLERANCE_MS: i64 = 20_000;

pub const MS_PER_HOUR: i64 = 3_600_000;

pub const MS_PER_DAY: i64 = 86_400_000;

/// Hour-of-day component (0..=23) of a non-negative millisecond timestamp.
pub open spec fn hour_of_ms(t: int) -> int {
    (t % 86_400_000) / 3_600_000
}

/// `t` with its hour-of-day component replaced by `h`.
pub open spec fn spec_replace_hour(t: int, h: int) -> int {
    t - hour_of_ms(t) * 3_600_000 + h * 3_600_000
}

/// The reconciled timestamp: the device timestamp if it lies within
/// `DRIFT_TOLERANCE_MS` of arrival, the arrival timestamp otherwise.
pub open spec fn spec_reconcile(device_ms: int, arrival_ms: int) -> int {
    if abs_diff(device_ms, arrival_ms) > DRIFT_TOLERANCE_MS {
        arrival_ms
    } else {
        device_ms
    }
}

pub open spec fn abs_diff(a: int, b: int) -> int {
    if a >= b {
        a - b
    } else {
        b - a
    }
}

/// Replaces the hour-of-day component of `device_ms` with the
/// hour-of-day component of `arrival_ms`, leaving the date and the
/// minutes, seconds and milliseconds untouched.
pub fn replace_hour(device_ms: i64, arrival_ms: i64) -> (r: i64)
    requires
        0 <= device_ms < i64::MAX - 86_400_000,
        0 <= arrival_ms,
    ensures
        r == spec_replace_hour(device_ms as int, hour_of_ms(arrival_ms as int)),
        0 <= r,
{
    let device_hour: i64 = (device_ms % MS_PER_DAY) / MS_PER_HOUR;
    let arrival_hour: i64 = (arrival_ms % MS_PER_DAY) / MS_PER_HOUR;
    device_ms - device_hour * MS_PER_HOUR + arrival_hour * MS_PER_HOUR
}

/// Chooses between a device-reported timestamp and the arrival
/// timestamp. Returns the chosen timestamp and whether the device
/// timestamp was rejected for drifting beyond the tolerance.
pub fn reconcile_timestamp(device_ms: i64, arrival_ms: i64) -> (r: (i64, bool))
    requires
        0 <= device_ms,
        0 <= arrival_ms,
    ensures
        r.0 == spec_reconcile(device_ms as int, arrival_ms as int),
        r.1 == (abs_diff(device_ms as int, arrival_ms as int) > DRIFT_TOLERANCE_MS),
{
    let drift: i64 = if arrival_ms >= device_ms {
        arrival_ms - device_ms
    } else {
        device_ms - arrival_ms
    };
    if drift > DRIFT_TOLERANCE_MS {
        (arrival_ms, true)
    } else {
        (device_ms, false)
    }
}

} // verus!
