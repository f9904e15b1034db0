[package]
name = "session_usage"
version = "0.1.0"
edition = "2021"
publish = false

[dependencies]
chrono = "=0.4.45"
dirs = "=5.0.1"
regex = "=1.13.1"
rusqlite = { version = "=0.31.0", features = ["bundled"] }
rust_decimal = "=1.43.0"
serde_json = "=1.0.154"
url = "=2.5.8"
uuid = { version = "=1.29.0", features = ["v5"] }
