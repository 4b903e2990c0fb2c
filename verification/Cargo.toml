[package]
name = "untis_mirror"
version = "0.1.0"
edition = "2021"
publish = false

[dependencies]
chrono = "0.4"
totp-rs = "5"
serde = { version = "1", features = ["derive"] }
serde_json = "1"
