[package]
name = "currency_requester"
version = "0.1.0"
edition = "2021"
publish = false

[dependencies]
time = { version = "0.3", features = ["std"] }
serde = { version = "1", features = ["derive"] }
serde_json = "1"
ndarray = "0.16"
reqwest = { version = "0.12", default-features = false, features = ["rustls-tls"] }
tokio = { version = "1", features = ["rt-multi-thread", "macros"] }
