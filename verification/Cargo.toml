[package]
name = "broadcast_relay"
version = "0.1.0"
edition = "2021"
publish = false

[dependencies]
tungstenite = "*"
chrono = "*"
serde = { version = "*", features = ["derive"] }
toml = "*"
