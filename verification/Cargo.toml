[package]
name = "luminous"
version = "0.1.0"
edition = "2021"
publish = false

[dependencies]
anyhow = "=1.0.104"
chrono = "=0.4.45"
log = "=0.4.35"
md-5 = "=0.10.6"
percent-encoding = "=2.3.2"
rand = "=0.9.5"
rusqlite = { version = "=0.41.1", features = ["bundled"] }
serde = { version = "=1.0.229", features = ["derive"] }
serde_json = "=1.0.154"
lofty = "0.22"
url = "=2.5.8"
uuid = { version = "=1.29.0", features = ["v4"] }
