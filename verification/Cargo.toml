[package]
name = "raft"
version = "0.1.0"
edition = "2021"
publish = false

[dependencies]
bincode = "1.3"
futures = "0.3"
madsim = "0.1"
serde = { version = "1", features = ["derive"] }
thiserror = "1"
