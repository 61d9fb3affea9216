[package]
name = "day_scheduler"
version = "0.1.0"
edition = "2021"
publish = false

[dependencies]
chrono = "*"
ics = "*"
serde = { version = "*", features = ["derive"] }
serde_yaml = "*"
uuid = { version = "*", features = ["v4"] }
