[package]
name = "mem_stream"
version = "0.1.0"
edition = "2021"
publish = false

[dependencies]
anyhow = "1"
axum = "0.8"
base64 = "0.22"
bitcode = "0.6"
bytes = "1"
chrono = "0.4"
chrono-tz = "0.10"
futures = "0.3"
serde = { version = "1", features = ["derive"] }
serde_json = "1"
tokio = { version = "1", features = ["full"] }
tokio-util = { version = "0.7", features = ["codec"] }
tower-http = { version = "0.6", features = ["cors"] }
tracing = "0.1"
zstd = "0.13"
