[package]
name = "pong"
version = "0.1.0"
edition = "2021"
publish = false

[dependencies]
clap = { version = "4", features = ["derive"] }
color-eyre = "0.6"
crossterm = { version = "0.28", features = ["event-stream"] }
dns-lookup = "2"
futures = "0.3"
rand = "0.8"
ratatui = "0.29"
surge-ping = "0.8"
tokio = { version = "1", features = ["full"] }
tokio-util = "0.7"
