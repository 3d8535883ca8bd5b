[package]
name = "ppt_maker"
version = "0.1.0"
edition = "2021"
publish = false

[dependencies]
serde = { version = "=1.0.229", features = ["derive"] }
serde_json = "=1.0.154"
serde_yaml = "=0.9.34"
tokio = { version = "=1.54.1", features = ["fs", "rt", "macros"] }
reqwest = { version = "=0.12.28", default-features = false, features = ["json", "rustls-tls", "multipart"] }
zip = "=9.2.2"
roxmltree = "=0.21.2"
image = { version = "=0.25.10", default-features = false, features = ["png", "jpeg"] }
base64 = "=0.23.1"
chrono = "=0.4.45"
uuid = { version = "=1.29.1", features = ["v4"] }
lopdf = "=0.47.0"
rusqlite = { version = "=0.41.1", features = ["bundled"] }
futures = "=0.3.34"
