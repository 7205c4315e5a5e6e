[package]
name = "mapgen"
version = "0.1.0"
edition = "2021"
publish = false

[dependencies]
rand = "0.7"
serde = { version = "1", features = ["derive"] }
ron = "0.6"
walkdir = "2"
chrono = "0.4"
noise = { version = "0.6", default-features = false }
