[package]
name = "simple_db"
version = "0.1.0"
edition = "2021"
publish = false

[dependencies]
bincode = "1.3"
serde = "1"
uuid = { version = "1", features = ["v4"] }
