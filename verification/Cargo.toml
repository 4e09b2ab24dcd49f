[package]
name = "pltr"
version = "0.1.0"
edition = "2021"
publish = false

[dependencies]
pathfinding = "*"
rand = "*"
csv = "*"
serde = { version = "*", features = ["derive"] }
