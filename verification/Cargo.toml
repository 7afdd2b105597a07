[package]
name = "iso8601"
version = "0.6.0"
edition = "2021"
publish = false

[dependencies]
chrono = { version = "0.4", default-features = false, features = ["std"] }
num-traits = { version = "0.2", default-features = false }
serde = "1"
serde_json = "1"
