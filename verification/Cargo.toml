[package]
name = "mcts"
version = "0.1.0"
edition = "2021"
publish = false

[dependencies]
rand = "*"
itertools = "*"
anyhow = "*"
serde = { version = "*", features = ["derive"] }
serde_json = "*"
log = "*"
humantime = "*"
