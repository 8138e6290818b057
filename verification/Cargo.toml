[package]
name = "resource_sim"
version = "0.1.0"
edition = "2021"
publish = false

[dependencies]
rand = "0.9"
noise = "0.9"
ratatui = "0.29"
crossterm = "0.28"
tokio = { version = "1", features = ["rt-multi-thread", "macros", "sync", "time"] }
serde = { version = "1", features = ["derive"] }
toml = "0.8"
color-eyre = "0.6"
