use fizzle::swarm::SmartPlug;
use fizzle::topic::{HomeTasmotaTopicScheme, TelemetryType, TopicGenerator};

#[test]
fn test_smartplug_new() {
    let name = "test".to_string();
    let smartplug = SmartPlug::<HomeTasmotaTopicScheme>::new(name.clone());
    assert_eq!(smartplug.name(), name);
}

#[test]
fn test_smartplug_sensor_telemetry_topic() {
    let name = "location/device-name".to_string();
    let smartplug = SmartPlug::<HomeTasmotaTopicScheme>::new(name.clone());
    assert_eq!(
        smartplug.sensor_telemetry_topic(),
        "tasmota/tele/location/device-name/SENSOR"
    );
}

#[test]
fn test_smartplug_state_telemetry_topic() {
    let name = "location/device-name".to_string();
    let smartplug = SmartPlug::<HomeTasmotaTopicScheme>::new(name.clone());
    assert_eq!(
        smartplug.state_telemetry_topic(),
        "tasmota/tele/location/device-name/STATE"
    );
}

#[test]
fn test_smartplug_lwt_topic() {
    let name = "location/device-name".to_string();
    let smartplug = SmartPlug::<HomeTasmotaTopicScheme>::new(name.clone());
    assert_eq!(
        smartplug.lwt_topic(),
        "tasmota/tele/location/device-name/LWT"
    );
}

#[test]
fn telemetry_type_by_suffix() {
    assert!(matches!(
        HomeTasmotaTopicScheme::telemetry_type("tasmota/tele/a/SENSOR"),
        Some(TelemetryType::Sensor)
    ));
    assert!(matches!(
        HomeTasmotaTopicScheme::telemetry_type("tasmota/tele/a/STATE"),
        Some(TelemetryType::State)
    ));
    assert!(matches!(
        HomeTasmotaTopicScheme::telemetry_type("tasmota/tele/a/LWT"),
        Some(TelemetryType::Lwt)
    ));
    assert!(HomeTasmotaTopicScheme::telemetry_type("tasmota/tele/a/OTHER").is_none());
}

#[test]
fn extract_device_name_strips_affixes() {
    assert_eq!(
        HomeTasmotaTopicScheme::extract_device_name("tasmota/tele/location/device-name/SENSOR"),
        Some("location/device-name")
    );
    assert_eq!(
        HomeTasmotaTopicScheme::extract_device_name("tasmota/tele/kitchen/LWT"),
        Some("kitchen")
    );
}
