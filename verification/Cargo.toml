[package]
name = "mclog_capture"
version = "0.1.0"
edition = "2021"
publish = false

[dependencies]
vanity_nbt = { version = "=0.1.0", features = ["serde"] }
uuid = { version = "=1.29.1", features = ["serde"] }
serde = { version = "=1.0.229", features = ["derive"] }
thiserror = "=2.0.21"
tokio = { version = "=1.54.1", features = ["full"] }
tracing = "=0.1.44"
tracing-subscriber = { version = "=0.3.23", features = ["json"] }
dotenvy = "=0.15.7"
