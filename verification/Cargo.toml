[package]
name = "bunjee"
version = "0.1.0"
edition = "2021"
publish = false

[dependencies]
base64 = "0.22"
bincode = "1.3"
chrono = { version = "0.4", features = ["serde"] }
serde = { version = "1", features = ["derive"] }
serde_json = "1"

[dev-dependencies]
tempfile = "3"
