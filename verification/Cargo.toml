[package]
name = "json_archive"
version = "0.1.0"
edition = "2021"
publish = false

[dependencies]
serde_json = "1"
chrono = "0.4"
serde = { version = "1", features = ["derive"] }
uuid = { version = "1", features = ["v4"] }
