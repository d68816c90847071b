[package]
name = "iptv_speed_tester"
version = "3.0.0"
edition = "2021"
publish = false

[dependencies]
regex = "1"
url = "2"
chrono = "0.4"
clap = { version = "4", features = ["derive", "env"] }
tokio = { version = "1", features = ["full"] }
axum = "0.7"
once_cell = "1"
