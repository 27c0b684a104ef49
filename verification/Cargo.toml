[package]
name = "bobr"
version = "0.1.0"
edition = "2021"
publish = false

[dependencies]
anyhow = "*"
chrono = "*"
clap = "*"
clap_complete = "*"
crossterm = "*"
flume = "*"
serde = { version = "*", features = ["derive"] }
serde_json = "*"
serde_yml = "*"
signal-hook = "*"
tokio = { version = "*", features = ["rt-multi-thread", "macros", "process", "io-util", "sync", "time"] }
toml = "*"

[dev-dependencies]
serde_json = "*"
