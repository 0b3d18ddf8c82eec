[package]
name = "glean"
version = "0.1.0"
edition = "2021"
publish = false

[dependencies]
serde = { version = "=1.0.229", features = ["derive"] }
serde_json = "=1.0.154"
dirs = "=5.0.1"
chrono = "=0.4.45"
parking_lot = "=0.12.5"
futures = "=0.3.34"
reqwest = { version = "=0.12.28", default-features = false, features = ["json", "stream", "rustls-tls"] }
rusqlite = { version = "=0.31.0", features = ["bundled"] }
arboard = "3"
active-win-pos-rs = "*"
core-graphics = "*"
accessibility-ng = "*"
