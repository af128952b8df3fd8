[package]
name = "twitcher"
version = "0.1.0"
edition = "2021"
publish = false

[dependencies]
serde = { version = "1", features = ["derive"] }
serde_json = "1"
xshell = "0.2"
crossbeam = "0.8"
sysinfo = "*"
clap = { version = "4", features = ["derive"] }
nvml-wrapper = "*"
