use fizzle::config::MqttConfig;
use fizzle::timestamp::{reconcile_timestamp, replace_hour, DRIFT_TOLERANCE_MS};

#[test]
fn device_timestamp_within_tolerance_is_kept() {
    // Device 12:00:00.000, arrival 12:00:10.000: drift 10s, keep the
    // device timestamp.
    let (ts, drifted) = reconcile_timestamp(43_200_000, 43_210_000);
    assert_eq!(ts, 43_200_000);
    assert!(!drifted);
}

#[test]
fn device_timestamp_beyond_tolerance_is_replaced() {
    // Device 12:00:00.000, arrival 12:00:25.000: drift 25s > 20s, use
    // the arrival timestamp.
    let (ts, drifted) = reconcile_timestamp(43_200_000, 43_225_000);
    assert_eq!(ts, 43_225_000);
    assert!(drifted);
}

#[test]
fn tolerance_boundary_is_inclusive() {
    let (ts, drifted) = reconcile_timestamp(0, DRIFT_TOLERANCE_MS);
    assert_eq!(ts, 0);
    assert!(!drifted);
    let (ts, drifted) = reconcile_timestamp(0, DRIFT_TOLERANCE_MS + 1);
    assert_eq!(ts, DRIFT_TOLERANCE_MS + 1);
    assert!(drifted);
}

#[test]
fn hour_of_day_comes_from_arrival() {
    // Device clock reads 05:00:00.123; messages arrive in the 14:00
    // hour: the date, minutes, seconds and millis stay.
    let device = 5 * 3_600_000 + 123;
    let arrival = 14 * 3_600_000 + 59 * 60_000;
    assert_eq!(replace_hour(device, arrival), 14 * 3_600_000 + 123);
    // Same hour: unchanged.
    assert_eq!(replace_hour(device, 5 * 3_600_000), device);
}

#[test]
fn effective_port_defaults() {
    let plain = MqttConfig { host: "bus.local".to_string(), port: None, tls: false };
    assert_eq!(plain.effective_port(), 1883);
    let tls = MqttConfig { host: "bus.local".to_string(), port: None, tls: true };
    assert_eq!(tls.effective_port(), 8883);
    let fixed = MqttConfig { host: "bus.local".to_string(), port: Some(1999), tls: true };
    assert_eq!(fixed.effective_port(), 1999);
}
