use fizzle::buffer::MaybeTelemetry;
use fizzle::device::{TasmotaDevice, TelemetryFragment};
use fizzle::power_state::PowerState;
use fizzle::telemetry::{Energy, StatusSNS, StatusSTS, WiFi};

fn energy(lifetime_wh: i64) -> Energy {
    Energy {
        start_time: 0,
        energy_lifetime: lifetime_wh,
        energy_yesterday: 2,
        energy_today: 1,
        period: 0,
        power: 10,
        apparent_power: 5,
        reactive_power: 2,
        power_factor: 950,
        voltage: 230,
        current: 100,
    }
}

fn sns(time_ms: i64, lifetime_wh: i64) -> StatusSNS {
    StatusSNS { time: time_ms, energy: energy(lifetime_wh) }
}

fn sts(time_ms: i64) -> StatusSTS {
    StatusSTS {
        time: time_ms,
        power_state: PowerState::On,
        uptime: "0T01:00:00".to_string(),
        uptime_seconds: 3600,
        vcc: 3300,
        load_average: 19,
        sleep: 50,
        sleep_mode: "Dynamic".to_string(),
        mqtt_count: 1,
        wifi: WiFi {
            ap: 1,
            ssid: "net".to_string(),
            bssid: "00:00:00:00:00:00".to_string(),
            channel: 6,
            rssi: -60,
            signal: -60,
            link_count: 1,
            down_time: "0T00:00:00".to_string(),
        },
    }
}

// Arrival in the same (zeroth) hour of day keeps the fragment key equal
// to the device timestamp.
const ARRIVAL: i64 = 500;

#[test]
fn pair_promotes_exactly_once() {
    let mut dev = TasmotaDevice::new("kitchen".to_string());
    // One kind alone does not produce a record.
    assert!(dev.update_with_sns_telemetry(sns(1000, 500), ARRIVAL).is_none());
    assert_eq!(dev.record_count(), 0);
    // The matching status fragment completes the pair: one record.
    let rec = dev.update_with_sts_telemetry(sts(1000), ARRIVAL).unwrap();
    assert_eq!(dev.record_count(), 1);
    // First observation normalizes the energy counter to zero.
    assert_eq!(rec.energy, 0);
    assert_eq!(rec.power, 10);
    assert_eq!(rec.power_state, PowerState::On);
    // A replayed fragment at the same timestamp is superseded: no
    // second record for that timestamp.
    assert!(dev.update_with_sns_telemetry(sns(1000, 500), ARRIVAL).is_none());
    assert!(dev.update_with_sts_telemetry(sts(1000), ARRIVAL).is_none());
    assert_eq!(dev.record_count(), 1);
}

#[test]
fn out_of_order_fragment_is_dropped_whole() {
    let mut dev = TasmotaDevice::new("kitchen".to_string());
    dev.update_with_sns_telemetry(sns(5000, 500), ARRIVAL);
    dev.update_with_sts_telemetry(sts(5000), ARRIVAL).unwrap();
    // A fragment at an older timestamp is dropped; in particular the
    // counter normalizer is untouched by its (lower) counter value.
    assert!(dev.update_with_sns_telemetry(sns(4000, 100), ARRIVAL).is_none());
    assert_eq!(dev.record_count(), 1);
    // The next pair normalizes against the undisturbed offset of 500.
    dev.update_with_sns_telemetry(sns(6000, 600), ARRIVAL);
    let rec = dev.update_with_sts_telemetry(sts(6000), ARRIVAL).unwrap();
    assert_eq!(rec.energy, 100);
    assert_eq!(dev.record_count(), 2);
}

#[test]
fn counter_reset_pins_energy_to_zero() {
    let mut dev = TasmotaDevice::new("kitchen".to_string());
    dev.update_with_sns_telemetry(sns(1000, 500), ARRIVAL);
    dev.update_with_sts_telemetry(sts(1000), ARRIVAL).unwrap();
    // The device reboots and reports a lower counter: the offset moves
    // to the new value and the normalized energy restarts at zero.
    dev.update_with_sns_telemetry(sns(2000, 30), ARRIVAL);
    let rec = dev.update_with_sts_telemetry(sts(2000), ARRIVAL).unwrap();
    assert_eq!(rec.energy, 0);
    let recs = (0..dev.record_count())
        .map(|i| dev.record_at(i))
        .collect::<Vec<_>>();
    assert_eq!(recs.len(), 2);
    assert!(recs[0].timestamp < recs[1].timestamp);
}

#[test]
fn stale_incomplete_entries_are_swept() {
    let mut dev = TasmotaDevice::new("kitchen".to_string());
    // A sensor fragment that never finds its partner.
    dev.update_with_sns_telemetry(sns(1000, 500), ARRIVAL);
    // Within the age window nothing is evicted.
    assert_eq!(dev.clear_stale_buffered_telemetry(1500, 2000), 0);
    // Past the age window the entry goes; promoted records would stay.
    assert_eq!(dev.clear_stale_buffered_telemetry(10, 2000), 1);
    assert_eq!(dev.record_count(), 0);
}

#[test]
fn maybe_telemetry_pairs_fragments() {
    let mut slot = MaybeTelemetry::default();
    assert!(slot.pair().is_none());
    assert!(slot.replace_sns(sns(1000, 7)).is_none());
    assert!(slot.pair().is_none());
    // A same-kind duplicate replaces the earlier fragment.
    let prev = slot.replace_sns(sns(1000, 9)).unwrap();
    assert_eq!(prev.energy.energy_lifetime, 7);
    assert!(slot.replace_sts(sts(1000)).is_none());
    let (e, s) = slot.pair().unwrap();
    assert_eq!(e.energy_lifetime, 9);
    assert_eq!(s.uptime_seconds, 3600);
    // The pair was taken out.
    assert!(slot.pair().is_none());
}

#[test]
fn fragments_carry_their_kind() {
    let f = TelemetryFragment::Sensor(sns(1, 2));
    assert!(matches!(f, TelemetryFragment::Sensor(_)));
    let f = TelemetryFragment::State(sts(1));
    assert!(matches!(f, TelemetryFragment::State(_)));
}
