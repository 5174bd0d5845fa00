[package]
name = "network_monitor"
version = "0.1.0"
edition = "2021"
publish = false

[dependencies]
etherparse = "0.16"
pcap = "2"
dns-lookup = "2"
maxminddb = "0.26"
serde = { version = "1", features = ["derive"] }
serde_json = "1"
chrono = "0.4"
thiserror = "2"
