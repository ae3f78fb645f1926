[package]
name = "world_core"
version = "0.1.0"
edition = "2021"
publish = false

[dependencies]
glam = "*"
parrot = "*"
ron = "*"
serde = { version = "1", features = ["derive"] }
serde_json = "1"
