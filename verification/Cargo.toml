[package]
name = "wattea"
version = "0.1.0"
edition = "2021"
publish = false

[dependencies]
dirs = "5"
color-eyre = "0.6"
rusqlite = { version = "0.32", features = ["bundled"] }
ratatui = "0.29"
crossterm = { version = "0.28", features = ["event-stream"] }
futures = "0.3"
tokio = { version = "1", features = ["rt", "macros", "time"] }
signal-hook = "0.3"
