use fizzle::power_state::PowerState;
use fizzle::swarm::{PlugMessage, SmartPlugSwarm, SwarmError};
use fizzle::telemetry::{Energy, StatusSNS, StatusSTS, WiFi};
use fizzle::topic::HomeTasmotaTopicScheme;
use fizzle::writer::{BatchWriter, Options, Status};

fn energy(lifetime_wh: i64) -> Energy {
    Energy {
        start_time: 0,
        energy_lifetime: lifetime_wh,
        energy_yesterday: 2,
        energy_today: 1,
        period: 0,
        power: 10,
        apparent_power: 5,
        reactive_power: 2,
        power_factor: 950,
        voltage: 230,
        current: 100,
    }
}

fn sns(time_ms: i64, lifetime_wh: i64) -> StatusSNS {
    StatusSNS { time: time_ms, energy: energy(lifetime_wh) }
}

fn sts(time_ms: i64) -> StatusSTS {
    StatusSTS {
        time: time_ms,
        power_state: PowerState::On,
        uptime: "0T01:00:00".to_string(),
        uptime_seconds: 3600,
        vcc: 3300,
        load_average: 19,
        sleep: 50,
        sleep_mode: "Dynamic".to_string(),
        mqtt_count: 1,
        wifi: WiFi {
            ap: 1,
            ssid: "net".to_string(),
            bssid: "00:00:00:00:00:00".to_string(),
            channel: 6,
            rssi: -60,
            signal: -60,
            link_count: 1,
            down_time: "0T00:00:00".to_string(),
        },
    }
}

fn writer() -> BatchWriter {
    BatchWriter::new(Options { channel_len: 16, max_timeout_ms: 30_000, max_lines: 5000, max_bytes: 30_000 })
}

type Swarm = SmartPlugSwarm<HomeTasmotaTopicScheme>;

#[test]
fn pair_produces_encoded_record() {
    let mut swarm: Swarm = Swarm::new();
    let mut w = writer();
    let arrival = 1_000_000;
    let out = swarm
        .handle_telemetry(
            "tasmota/tele/kitchen/SENSOR",
            PlugMessage::Sensor(sns(1_000_000, 1000)),
            arrival,
            &mut w,
        )
        .unwrap();
    assert!(out.is_none());
    let (h, t) = swarm
        .handle_telemetry(
            "tasmota/tele/kitchen/STATE",
            PlugMessage::State(sts(1_000_000)),
            arrival,
            &mut w,
        )
        .unwrap()
        .unwrap();
    assert_eq!(t.name, "kitchen");
    assert_eq!(t.energy, 0);
    assert_eq!(t.power, 10);
    assert_eq!(t.device_uptime, 3600);
    assert_eq!(t.monitor_uptime, 0);
    assert_eq!(t.state, PowerState::On);
    // The device clock agrees with arrival, so it is used verbatim.
    assert_eq!(t.timestamp, 1_000_000);
    assert_eq!(w.status_of(h), Status::Init);
    w.buffer_next();
    let body = w.begin_flush();
    let expected = "telemetry,device=kitchen apparent_power=5i,current=100i,\
device_uptime=3600u,energy=0i,monitor_uptime=0u,power=10i,\
power_factor=950i,reactive_power=2i,state=\"on\",voltage=230i 1000000\n";
    assert_eq!(String::from_utf8(body).unwrap(), expected);
    w.flush_succeeded();
    assert_eq!(w.status_of(h), Status::Accepted);
}

#[test]
fn drifting_device_clock_is_overridden() {
    let mut swarm: Swarm = Swarm::new();
    let mut w = writer();
    // The pair's device clock reads 1_000_000 but the messages arrive
    // 25 s later: drift beyond the 20 s tolerance, so the arrival
    // timestamp is used for the record.
    let arrival = 1_025_000;
    swarm
        .handle_telemetry(
            "tasmota/tele/kitchen/SENSOR",
            PlugMessage::Sensor(sns(1_000_000, 1000)),
            arrival,
            &mut w,
        )
        .unwrap();
    let (_, t) = swarm
        .handle_telemetry(
            "tasmota/tele/kitchen/STATE",
            PlugMessage::State(sts(1_000_000)),
            arrival,
            &mut w,
        )
        .unwrap()
        .unwrap();
    assert_eq!(t.timestamp, arrival);
    // Within tolerance the device clock wins.
    let mut swarm2: Swarm = Swarm::new();
    let near = 1_010_000;
    swarm2
        .handle_telemetry(
            "tasmota/tele/kitchen/SENSOR",
            PlugMessage::Sensor(sns(1_000_000, 1000)),
            near,
            &mut w,
        )
        .unwrap();
    let (_, t2) = swarm2
        .handle_telemetry(
            "tasmota/tele/kitchen/STATE",
            PlugMessage::State(sts(1_000_000)),
            near,
            &mut w,
        )
        .unwrap()
        .unwrap();
    assert_eq!(t2.timestamp, 1_000_000);
}

#[test]
fn re_registration_is_idempotent() {
    let mut swarm: Swarm = Swarm::new();
    assert!(swarm.create_new_smartplug("kitchen".to_string()).is_none());
    assert_eq!(swarm.plug_count(), 1);
    assert_eq!(swarm.topic_count(), 3);
    // Re-registering the same name replaces the plug and leaves no
    // orphaned index entries behind.
    assert!(swarm.create_new_smartplug("kitchen".to_string()).is_some());
    assert_eq!(swarm.plug_count(), 1);
    assert_eq!(swarm.topic_count(), 3);
    // A second device keeps its own three entries.
    assert!(swarm.create_new_smartplug("garage".to_string()).is_none());
    assert_eq!(swarm.plug_count(), 2);
    assert_eq!(swarm.topic_count(), 6);
    assert!(swarm.create_new_smartplug("garage".to_string()).is_some());
    assert_eq!(swarm.plug_count(), 2);
    assert_eq!(swarm.topic_count(), 6);
}

#[test]
fn lwt_is_stored_not_paired() {
    let mut swarm: Swarm = Swarm::new();
    let mut w = writer();
    let out = swarm
        .handle_telemetry(
            "tasmota/tele/kitchen/LWT",
            PlugMessage::Lwt("Online".to_string()),
            1000,
            &mut w,
        )
        .unwrap();
    // A last-will message never reaches the pairing pipeline.
    assert!(out.is_none());
    assert_eq!(swarm.plug_count(), 1);
}

#[test]
fn closed_writer_error_is_surfaced() {
    let mut swarm: Swarm = Swarm::new();
    let mut w = writer();
    w.close();
    swarm
        .handle_telemetry(
            "tasmota/tele/kitchen/SENSOR",
            PlugMessage::Sensor(sns(1_000_000, 1000)),
            1_000_000,
            &mut w,
        )
        .unwrap();
    let r = swarm.handle_telemetry(
        "tasmota/tele/kitchen/STATE",
        PlugMessage::State(sts(1_000_000)),
        1_000_000,
        &mut w,
    );
    assert!(matches!(r, Err(SwarmError::WriterClosed)));
}

#[test]
fn lwt_is_observable() {
    let mut swarm: Swarm = Swarm::new();
    let mut w = writer();
    swarm
        .handle_telemetry(
            "tasmota/tele/kitchen/LWT",
            PlugMessage::Lwt("Offline".to_string()),
            1000,
            &mut w,
        )
        .unwrap();
    // The plug stored the will; re-registration discards it.
    let old = swarm.create_new_smartplug("kitchen".to_string()).unwrap();
    assert_eq!(old.lwt(), Some("Offline"));
}
