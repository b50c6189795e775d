[package]
name = "git_future"
version = "0.1.0"
edition = "2021"
publish = false

[dependencies]
hex = "=0.4.3"
miniz_oxide = "=0.8.9"
chrono = "=0.4.45"
similar = { version = "=3.2.1", features = ["bytes"] }
serde = { version = "1", features = ["derive"] }
