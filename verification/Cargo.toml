[package]
name = "gooseberry"
version = "0.1.0"
edition = "2021"
publish = false

[dependencies]
sled = "0.34"
url = "2"
chrono = "0.4"
chrono-english = "0.1"
serde = { version = "1", features = ["derive"] }
serde_json = "1"
