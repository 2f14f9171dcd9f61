[package]
name = "flintmc"
version = "0.1.0"
edition = "2021"
publish = false

[dependencies]
anyhow = "1"
azalea = "*"
clap = { version = "4", features = ["derive"] }
colored = "*"
parking_lot = "*"
serde_json = "1"
tokio = { version = "1", features = ["full"] }
tracing = "0.1"
tracing-subscriber = { version = "0.3", features = ["env-filter"] }
