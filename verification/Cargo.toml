[package]
name = "minigames"
version = "0.1.0"
edition = "2021"
publish = false

[dependencies]
rand = "0.8"
uuid = { version = "1", features = ["v4"] }
crossterm = "0.27"
serde = { version = "1", features = ["derive"] }
serde_json = "1"
unicode-width = "0.1"
