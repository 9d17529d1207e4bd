[package]
name = "aladdin"
version = "0.1.0"
edition = "2021"
publish = false

[dependencies]
regex = "1"
time = "0.1"
url = "1"
kuchiki = "0.8"
rusqlite = { version = "*", features = ["bundled"] }
serde = { version = "1", features = ["derive"] }
serde_derive = "1"
serde_json = "1"
hyper = "0.10"
mime = "0.2"
parking_lot = "*"
log = "0.4"
env_logger = "*"
lazy_static = "1"
crossbeam = "*"
chrono = "0.4"
toml = "*"
websocket = { version = "*", default-features = false, features = ["sync"] }
