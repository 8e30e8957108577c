[package]
name = "openvpn_mgmt"
version = "0.1.0"
edition = "2021"
publish = false

[dependencies]
chrono = { version = "=0.4.45", features = ["serde"] }
syslog_rfc5424 = "=0.10.0"
actix-web = { version = "=4.18.1", default-features = false, features = ["macros", "compress-gzip"] }
tokio = { version = "=1.54.1", features = ["net", "io-util", "fs", "rt", "macros", "time"] }
serde = { version = "=1.0.229", features = ["derive"] }
serde_json = "=1.0.154"
anyhow = "=1.0.104"
log = "=0.4.34"
simplelog = "=0.12.2"
