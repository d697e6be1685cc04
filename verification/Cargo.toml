[package]
name = "ctrlq"
version = "0.1.0"
edition = "2021"
publish = false

[dependencies]
anyhow = "*"
chrono = "*"
clap = "*"
crossterm = "*"
ctrlc = "*"
dirs = "*"
evdev = "*"
ratatui = "*"
tokio = { version = "*", features = ["sync"] }
