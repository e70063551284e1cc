[package]
name = "telemetry_sampler"
version = "0.1.0"
edition = "2021"
publish = false

[dependencies]
device_query = "=1.1.3"
serde = { version = "1", features = ["derive"] }
serde_json = "1"
