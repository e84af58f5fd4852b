[package]
name = "pbs"
version = "0.1.0"
edition = "2021"
publish = false

[dependencies]
axum = "0.7"
dirs = "5"
ksni = "0.2"
serde = { version = "1", features = ["derive"] }
serde_json = "1"
tokio = { version = "1", features = ["full"] }
