[package]
name = "fscs_monitor_plus"
version = "0.1.0"
edition = "2021"
publish = false

[dependencies]
chrono = "0.4"
scraper = "0.20"
icalendar = "0.16"
serde = { version = "1", features = ["derive"] }
serde_json = "1"
reqwest = { version = "0.12", default-features = false, features = ["blocking", "rustls-tls"] }
