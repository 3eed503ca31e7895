[package]
name = "leafish_screen"
version = "0.1.0"
edition = "2021"
publish = false

[dependencies]
parking_lot = "*"
rand = "*"
serde = { version = "*", features = ["derive"] }
serde_json = "*"
