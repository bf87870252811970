[package]
name = "ringside"
version = "0.1.0"
edition = "2021"
publish = false

[dependencies]
bigdecimal = "*"
chrono = "*"
serde = { version = "*", features = ["derive"] }
serde_json = "*"
