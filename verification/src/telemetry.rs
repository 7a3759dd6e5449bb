//! The two telemetry shapes a relay device reports, modeled with plain
//! integer units.
//!
//! On the wire these are JSON objects whose numeric fields include
//! fractional values; inside the library every quantity is an integer
//! in a fixed unit so that the correlation and normalization logic can
//! be verified: energy in watt-hours, current in milliamps, power
//! factor in per-mille, supply voltage in millivolts, timestamps in
//! milliseconds since the Unix epoch. Decoding the wire format into
//! these types happens outside the library.

use vstd::prelude::*;
use crate::power_state::PowerState;
use crate::timestamp::MS_PER_DAY;

verus! {

/// The energy block of a sensor report.
#[derive(Clone, Debug)]
pub struct Energy {
    /// When the device's totals started accumulating (ms, device clock).
    pub start_time: i64,
    /// Total accumulated energy in watt-hours.
    pub energy_lifetime: i64,
    /// Energy used yesterday in watt-hours.
    pub energy_yesterday: i64,
    /// Energy used today in watt-hours.
    pub energy_today: i64,
    pub period: i32,
    /// Current power draw in watts.
    pub power: u32,
    /// Apparent power in volt-amperes.
    pub apparent_power: u32,
    /// Reactive power in volt-amperes reactive.
    pub reactive_power: u32,
    /// Power factor in per-mille (0..=1000).
    pub power_factor: u32,
    /// Voltage in volts.
    pub voltage: u32,
    /// Current in milliamps.
    pub current: u32,
}

impl Energy {
    /// Counters are cumulative and never reported negative.
    pub open spec fn wf(self) -> bool {
        0 <= self.energy_lifetime
    }
}

/// A sensor report: the device's own timestamp plus the energy block.
#[derive(Clone, Debug)]
pub struct StatusSNS {
    /// Device wall-clock time in milliseconds (no timezone offset).
    pub time: i64,
    pub energy: Energy,
}

impl StatusSNS {
    pub open spec fn wf(self) -> bool {
        &&& 0 <= self.time < i64::MAX - MS_PER_DAY
        &&& self.energy.wf()
    }
}

/// Wireless diagnostics attached to a status report.
#[derive(Clone, Debug)]
pub struct WiFi {
    pub ap: u32,
    pub ssid: String,
    pub bssid: String,
    pub channel: u16,
    pub rssi: i16,
    pub signal: i16,
    pub link_count: u16,
    pub down_time: String,
}

/// A status report: power state and device health.
#[derive(Clone, Debug)]
pub struct StatusSTS {
    /// Device wall-clock time in milliseconds (no timezone offset).
    pub time: i64,
    pub power_state: PowerState,
    /// Human-readable uptime, as the device formats it.
    pub uptime: String,
    pub uptime_seconds: u64,
    /// Supply voltage in millivolts.
    pub vcc: u32,
    pub load_average: u32,
    pub sleep: u32,
    pub sleep_mode: String,
    pub mqtt_count: u32,
    pub wifi: WiFi,
}

impl StatusSTS {
    pub open spec fn wf(self) -> bool {
        0 <= self.time < i64::MAX - MS_PER_DAY
    }
}

/// A device's answer to a status query: identification only.
#[derive(Clone, Debug)]
pub struct Status0 {
    pub status: Status0Inner,
}

#[derive(Clone, Debug)]
pub struct Status0Inner {
    pub module: u32,
    pub device_name: String,
    pub topic: String,
}

/// The full record a plug's matched pair produces: every reading of
/// the pair, normalized and reconciled, ready to be encoded.
#[derive(Clone, Debug)]
pub struct Telemetry {
    pub name: String,
    pub apparent_power: i64,
    /// Current in milliamps.
    pub current: i64,
    pub device_uptime: u64,
    /// Offset-corrected accumulated energy in watt-hours.
    pub energy: i64,
    pub monitor_uptime: u64,
    pub power: i64,
    /// Power factor in per-mille.
    pub power_factor: i64,
    pub reactive_power: i64,
    pub state: PowerState,
    pub voltage: i64,
    /// Reconciled timestamp in milliseconds.
    pub timestamp: i64,
}

/// A completed, normalized record for one timestamp of one device,
/// ready to be encoded.
#[derive(Clone, Copy, Debug)]
pub struct ProcessedTelemetry {
    /// Offset-corrected accumulated energy in watt-hours.
    pub energy: i64,
    pub power: i64,
    /// Power factor in per-mille.
    pub power_factor: i64,
    pub apparent_power: i64,
    pub reactive_power: i64,
    pub voltage: i64,
    /// Current in milliamps.
    pub current: i64,
    pub power_state: PowerState,
}

impl From<(Energy, StatusSTS)> for ProcessedTelemetry {
    /// Pairs an energy block (its lifetime counter already normalized)
    /// with the matching status report.
    fn from(pair: (Energy, StatusSTS)) -> (r: ProcessedTelemetry) {
        let (energy, sts) = pair;
        ProcessedTelemetry {
            energy: energy.energy_lifetime,
            power: energy.power as i64,
            power_factor: energy.power_factor as i64,
            apparent_power: energy.apparent_power as i64,
            reactive_power: energy.reactive_power as i64,
            voltage: energy.voltage as i64,
            current: energy.current as i64,
            power_state: sts.power_state,
        }
    }
}

impl vstd::std_specs::convert::FromSpecImpl<(Energy, StatusSTS)> for ProcessedTelemetry {
    open spec fn obeys_from_spec() -> bool {
        true
    }

    open spec fn from_spec(pair: (Energy, StatusSTS)) -> ProcessedTelemetry {
        (ProcessedTelemetry {
            energy: pair.0.energy_lifetime,
            power: pair.0.power as i64,
            power_factor: pair.0.power_factor as i64,
            apparent_power: pair.0.apparent_power as i64,
            reactive_power: pair.0.reactive_power as i64,
            voltage: pair.0.voltage as i64,
            current: pair.0.current as i64,
            power_state: pair.1.power_state,
        })
    }
}

} // verus!
