[package]
name = "fan-controllerd"
version = "0.1.2"
edition = "2021"
publish = false

[dependencies]
anyhow = "1"
clap = { version = "4", features = ["derive"] }
sd-notify = "0.4"
serde = { version = "1", features = ["derive"] }
signal-hook = "0.3"
thiserror = "1"
toml = "0.8"
tracing = "0.1"
tracing-subscriber = { version = "0.3", features = ["env-filter"] }
