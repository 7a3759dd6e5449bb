use fizzle::device::{TasmotaDeviceManager, TelemetryFragment, UnroutableTopic};
use fizzle::impulse::{Impulse, ImpulseContext};
use fizzle::power_state::PowerState;
use fizzle::telemetry::{Energy, StatusSNS, StatusSTS, WiFi};
use fizzle::topic::RegexTopicScheme;
use fizzle::writer::{BatchWriter, Options};

fn energy(lifetime_wh: i64) -> Energy {
    Energy {
        start_time: 0,
        energy_lifetime: lifetime_wh,
        energy_yesterday: 2,
        energy_today: 1,
        period: 0,
        power: 10,
        apparent_power: 5,
        reactive_power: 2,
        power_factor: 950,
        voltage: 230,
        current: 100,
    }
}

fn sns(time_ms: i64, lifetime_wh: i64) -> StatusSNS {
    StatusSNS { time: time_ms, energy: energy(lifetime_wh) }
}

fn sts(time_ms: i64) -> StatusSTS {
    StatusSTS {
        time: time_ms,
        power_state: PowerState::On,
        uptime: "0T01:00:00".to_string(),
        uptime_seconds: 3600,
        vcc: 3300,
        load_average: 19,
        sleep: 50,
        sleep_mode: "Dynamic".to_string(),
        mqtt_count: 1,
        wifi: WiFi {
            ap: 1,
            ssid: "net".to_string(),
            bssid: "00:00:00:00:00:00".to_string(),
            channel: 6,
            rssi: -60,
            signal: -60,
            link_count: 1,
            down_time: "0T00:00:00".to_string(),
        },
    }
}

fn scheme() -> RegexTopicScheme {
    RegexTopicScheme::new(
        r"^tasmota/tele/(?P<device_id>.+)/[A-Z]+$",
        r"/(?P<telemetry_type>[A-Z]+)$",
    )
    .unwrap()
}

#[test]
fn routes_fragments_to_lazily_created_devices() {
    let mut mgr = TasmotaDeviceManager::new(scheme());
    let arrival = 500;
    assert_eq!(mgr.device_count(), 0);
    let out = mgr
        .handle_message(
            "tasmota/tele/kitchen/SENSOR",
            TelemetryFragment::Sensor(sns(1000, 700)),
            arrival,
        )
        .unwrap();
    assert!(out.is_none());
    assert_eq!(mgr.device_count(), 1);
    let rec = mgr
        .handle_message(
            "tasmota/tele/kitchen/STATE",
            TelemetryFragment::State(sts(1000)),
            arrival,
        )
        .unwrap()
        .unwrap();
    assert_eq!(rec.energy, 0);
    assert_eq!(rec.power, 10);
    // A second device gets its own state, inserted at its sorted
    // position: "garage" orders before "kitchen".
    mgr.handle_message(
        "tasmota/tele/garage/SENSOR",
        TelemetryFragment::Sensor(sns(1000, 5)),
        arrival,
    )
    .unwrap();
    assert_eq!(mgr.device_count(), 2);
    assert_eq!(mgr.device_record_count(0), 0);
    assert_eq!(mgr.device_record_count(1), 1);
}

#[test]
fn unroutable_topic_is_an_error() {
    let mut mgr = TasmotaDeviceManager::new(scheme());
    let r = mgr.handle_message(
        "garbage",
        TelemetryFragment::Sensor(sns(1000, 700)),
        500,
    );
    assert!(matches!(r, Err(UnroutableTopic)));
    assert_eq!(mgr.device_count(), 0);
}

#[test]
fn submitted_records_become_power_lines() {
    let mut mgr = TasmotaDeviceManager::new(scheme());
    let arrival = 500;
    mgr.handle_message(
        "tasmota/tele/kitchen/SENSOR",
        TelemetryFragment::Sensor(sns(1000, 700)),
        arrival,
    )
    .unwrap();
    mgr.handle_message(
        "tasmota/tele/kitchen/STATE",
        TelemetryFragment::State(sts(1000)),
        arrival,
    )
    .unwrap();
    let mut w = BatchWriter::new(Options::default());
    mgr.submit(&mut w);
    w.buffer_next();
    let body = w.begin_flush();
    assert_eq!(
        String::from_utf8(body).unwrap(),
        "telemetry,device=kitchen power=10i 1000\n"
    );
    w.flush_succeeded();
    // The record keeps its handle: a second submission round sends
    // nothing new.
    let mut w2 = BatchWriter::new(Options::default());
    mgr.submit(&mut w2);
    assert!(!w2.timer_tick());
    assert!(!w2.has_queued());
}

#[test]
fn impulse_record_is_encoded_and_normalized() {
    let mut ctx = ImpulseContext::with_initial_count(100);
    let mut w = BatchWriter::new(Options::default());
    let impulse = Impulse { impulse_count: 150, clock: 12_000_000, interval: 900_000, power: 1500 };
    let h = ctx.submit_impulse(&impulse, 42, 5, &mut w).unwrap();
    assert_eq!(ctx.previous_count, 150);
    assert_eq!(ctx.offset, 100);
    w.buffer_next();
    let body = w.begin_flush();
    assert_eq!(
        String::from_utf8(body).unwrap(),
        "impulse,device=garage/meter device_uptime=12u,energy=50i,monitor_uptime=5u,power=1500i 42\n"
    );
    w.flush_succeeded();
    assert_eq!(w.status_of(h), fizzle::writer::Status::Accepted);
}

#[test]
fn bad_pattern_is_rejected() {
    let err = RegexTopicScheme::new(r"(unclosed", r"ok").unwrap_err();
    // The error carries the pattern compiler's description.
    assert!(!err.0.is_empty());
    assert!(RegexTopicScheme::new(r"ok", r"(unclosed").is_err());
}
