[package]
name = "turtle_manager"
version = "0.1.0"
edition = "2021"
publish = false

[dependencies]
axum = "0.8"
bincode = "2"
serde = { version = "1", features = ["derive"] }
tokio = { version = "1", features = ["full"] }
toml = "0.8"
tracing-subscriber = "0.3"
