[package]
name = "boss_checker"
version = "0.1.0"
edition = "2021"
publish = false

[dependencies]
eframe = { version = "=0.22.0", default-features = false, features = ["glow"] }
env_logger = "=0.11.11"
serde = { version = "=1.0.229", features = ["derive"] }
serde_json = "=1.0.151"
