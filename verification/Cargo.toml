[package]
name = "koradar_core"
version = "0.1.0"
edition = "2021"
publish = false

[dependencies]
capstone = "*"
goblin = "*"
serde = { version = "*", features = ["derive"] }
serde_json = "*"
