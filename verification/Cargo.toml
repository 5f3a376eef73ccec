[package]
name = "trapo_server"
version = "0.1.0"
edition = "2021"
publish = false

[dependencies]
uuid = { version = "=1.29.0", features = ["v7"] }
chrono = { version = "=0.4.45", default-features = false, features = ["clock", "std"] }
serde_json = "=1.0.154"
libloading = "=0.8.9"
serde = { version = "1", features = ["derive"] }
