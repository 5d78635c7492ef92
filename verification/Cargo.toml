[package]
name = "round_eliminator"
version = "0.1.0"
edition = "2021"
publish = false

[dependencies]
contest-algorithms = "*"
serde = { version = "1", features = ["derive"] }
serde_json = "1"
itertools = "*"
streaming-iterator = "*"
