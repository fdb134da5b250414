[package]
name = "director_core"
version = "0.1.0"
edition = "2021"
publish = false

[dependencies]
anyhow = "=1.0.104"
thiserror = "=1.0.69"
serde = { version = "=1.0.229", features = ["derive"] }
keyframe = "=1.1.1"
taffy = "0.9"
