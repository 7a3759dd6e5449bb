[package]
name = "fizzle"
version = "0.1.0"
edition = "2021"
publish = false

[dependencies]
anyhow = "*"
bytes = "*"
clap = { version = "*", features = ["derive", "env"] }
csv = "*"
influxdb-line-protocol = "*"
regex = "*"
reqwest = { version = "*", default-features = false, features = ["gzip"] }
rumqttc = "*"
serde = { version = "*", features = ["derive"] }
serde_json = "*"
serde_yaml = "*"
time = { version = "*", features = ["macros", "formatting", "parsing", "serde", "local-offset"] }
tokio = { version = "*", features = ["rt-multi-thread", "macros", "sync", "time", "signal"] }
tracing = "*"
tracing-subscriber = "*"
url = "*"
