[package]
name = "pinguiny"
version = "0.1.0"
edition = "2021"
publish = false

[dependencies]
bevy = { version = "=0.17.3", default-features = false }
serde = { version = "1", features = ["derive"] }
ron = "0.11"
