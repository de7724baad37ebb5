[package]
name = "nadeo_api"
version = "0.1.0"
edition = "2021"
publish = false

[dependencies]
ahash = "0.8"
base64 = "0.22"
chrono = "0.4"
lazy_static = "1"
log = "0.4"
reqwest = { version = "0.12", default-features = false, features = ["json"] }
ringbuf = "0.4"
serde = { version = "1", features = ["derive"] }
serde_json = "1"
tokio = { version = "1", features = ["sync", "time", "macros", "rt-multi-thread"] }
