[package]
name = "watchxy"
version = "0.1.0"
edition = "2021"
publish = false

[dependencies]
tokio = { version = "=1.54.1", features = ["sync", "time", "macros", "rt", "process"] }
serde_json = "=1.0.154"
dissimilar = "=1.0.11"
tui-input = "=0.15.5"
crossterm = "=0.29.0"
ratatui = "=0.30.2"
chrono = "=0.4.45"
color-eyre = "=0.6.5"
