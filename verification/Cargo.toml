[package]
name = "prompt_relay"
version = "0.1.0"
edition = "2021"
publish = false

[dependencies]
parking_lot = "0.12"
serde = { version = "1", features = ["derive"] }
serde_json = "1"
sha2 = "0.10"
tokio = { version = "1", features = ["rt", "time"] }
tracing = "0.1"

[dev-dependencies]
base64 = "0.22"
image = { version = "0.25", default-features = false, features = ["png"] }
