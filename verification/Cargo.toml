[package]
name = "ai_api_pool"
version = "0.1.0"
edition = "2021"
publish = false

[dependencies]
parking_lot = "=0.12.5"
anyhow = "=1.0.104"
axum = "=0.7.9"
reqwest = { version = "=0.12.28", default-features = false, features = ["json", "rustls-tls"] }
serde = { version = "=1.0.229", features = ["derive"] }
serde_yaml = "=0.9.34"
tokio = { version = "=1.54.1", features = ["full"] }
tower-http = { version = "=0.5.2", features = ["cors"] }
tracing = "=0.1.44"
tracing-subscriber = "=0.3.23"
