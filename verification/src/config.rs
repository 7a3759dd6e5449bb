//! Configuration values the collector runs with.
//!
//! Reading and parsing the configuration file, and anything that names
//! a URL or a credential, happens outside the library; these types hold
//! the plain values the logic consumes.

use vstd::prelude::*;

verus! {

/// Command-line arguments: the path of the configuration file.
#[derive(Clone, Debug)]
pub struct Arguments {
    pub config: String,
}

/// Connection settings for the message bus.
#[derive(Clone, Debug)]
pub struct MqttConfig {
    pub host: String,
    pub port: Option<u16>,
    pub tls: bool,
}

impl MqttConfig {
    /// The port to connect to: the configured one, or the scheme's
    /// default (8883 with TLS, 1883 without).
    pub fn effective_port(&self) -> (r: u16)
        ensures
            r == match self.port {
                Option::Some(p) => p,
                Option::None => if self.tls {
                    8883u16
                } else {
                    1883u16
                },
            },
    {
        match self.port {
            Some(p) => p,
            None => if self.tls {
                8883
            } else {
                1883
            },
        }
    }
}

/// Settings of the auxiliary character display.
#[derive(Clone, Debug)]
pub struct DisplayConfig {
    /// Topic the rendered page is published to.
    pub topic: String,
    pub retain: bool,
    /// Topic the meter readings arrive on.
    pub meter_topic: String,
    /// Device tag of the meter in the time-series database.
    pub meter_device: String,
    pub buttons: Vec<DisplayButtonConfig>,
}

/// One display button: messages on `topic` are forwarded to
/// `output_topic`, with the configured payload or the incoming one.
#[derive(Clone, Debug)]
pub struct DisplayButtonConfig {
    pub topic: String,
    pub output_topic: String,
    pub output_payload: Option<String>,
    pub retain: bool,
}

} // verus!
