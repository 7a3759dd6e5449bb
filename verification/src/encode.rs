//! Encoding of records into the sink's textual line format.
//!
//! One record becomes one line: the measurement name, a device tag,
//! the fields in alphabetical order, the timestamp, and a closing
//! newline, with the format's escaping rules applied to the tag value.
//! The encoding is done by the `influxdb_line_protocol` crate; each
//! encoder's exact output is named by an uninterpreted spec function of
//! its inputs, which is sound because the builder's output depends on
//! nothing but its arguments.

use vstd::prelude::*;
use crate::telemetry::Telemetry;

verus! {

/// The encoded line for one completed relay record; a function of the
/// record's fields alone.
pub uninterp spec fn telemetry_line(
    device: Seq<char>,
    apparent_power: i64,
    current_ma: i64,
    device_uptime: u64,
    energy: i64,
    monitor_uptime: u64,
    power: i64,
    power_factor_pm: i64,
    reactive_power: i64,
    on: bool,
    voltage: i64,
    timestamp: i64,
) -> Seq<u8>;

/// The encoded line for one pulse-meter record; a function of the
/// fields alone.
pub uninterp spec fn impulse_line(
    device_uptime: u64,
    energy: i64,
    monitor_uptime: u64,
    power: i64,
    timestamp: i64,
) -> Seq<u8>;

/// The encoded line for one power-only reading of a device.
pub uninterp spec fn power_line(device: Seq<char>, power: i64, timestamp: i64) -> Seq<u8>;

/// Relies on influxdb_line_protocol::LineProtocolBuilder: measurement,
/// tag and fields are written in call order, escaped per the line
/// format, and `close_line` ends the line with a newline byte.
#[verifier::external_body]
pub(crate) fn encode_telemetry_line(t: &Telemetry) -> (r: Vec<u8>)
    ensures
        r@ == telemetry_line(
            t.name@,
            t.apparent_power,
            t.current,
            t.device_uptime,
            t.energy,
            t.monitor_uptime,
            t.power,
            t.power_factor,
            t.reactive_power,
            t.state.spec_is_on(),
            t.voltage,
            t.timestamp,
        ),
        r@.len() > 0,
        r@.last() == 10u8,
{
    let b = influxdb_line_protocol::LineProtocolBuilder::new();
    let b = b.measurement("telemetry").tag("device", t.name.as_str());
    let b = b.field("apparent_power", t.apparent_power).field("current", t.current);
    let b = b.field("device_uptime", t.device_uptime).field("energy", t.energy);
    let b = b.field("monitor_uptime", t.monitor_uptime).field("power", t.power);
    let b = b.field("power_factor", t.power_factor).field("reactive_power", t.reactive_power);
    let b = b.field("state", t.state.as_str()).field("voltage", t.voltage);
    b.timestamp(t.timestamp).close_line().build()
}

/// Relies on influxdb_line_protocol::LineProtocolBuilder, as above, for
/// the pulse meter's record.
#[verifier::external_body]
pub(crate) fn encode_impulse_line(
    device_uptime: u64,
    energy: i64,
    monitor_uptime: u64,
    power: i64,
    timestamp: i64,
) -> (r: Vec<u8>)
    ensures
        r@ == impulse_line(device_uptime, energy, monitor_uptime, power, timestamp),
        r@.len() > 0,
        r@.last() == 10u8,
{
    let b = influxdb_line_protocol::LineProtocolBuilder::new();
    let b = b.measurement("impulse").tag("device", "garage/meter");
    let b = b.field("device_uptime", device_uptime).field("energy", energy);
    let b = b.field("monitor_uptime", monitor_uptime).field("power", power);
    b.timestamp(timestamp).close_line().build()
}

/// Relies on influxdb_line_protocol::LineProtocolBuilder, as above, for
/// a power-only reading.
#[verifier::external_body]
pub(crate) fn encode_power_line(device: &str, power: i64, timestamp: i64) -> (r: Vec<u8>)
    ensures
        r@ == power_line(device@, power, timestamp),
        r@.len() > 0,
        r@.last() == 10u8,
{
    let b = influxdb_line_protocol::LineProtocolBuilder::new();
    let b = b.measurement("telemetry").tag("device", device).field("power", power);
    b.timestamp(timestamp).close_line().build()
}

} // verus!
