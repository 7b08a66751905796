[package]
name = "raft_rust"
version = "0.1.0"
edition = "2021"
publish = false

[dependencies]
bincode = { version = "2", features = ["serde"] }
crossbeam = "0.8"
env_logger = "0.11"
fs4 = { version = "0.13", features = ["sync"] }
itertools = "*"
log = "0.4"
rand = "*"
serde = { version = "1", features = ["derive"] }
serde_yaml = "0.9"
uuid = { version = "1", features = ["v4", "serde"] }
