[package]
name = "dd_merge"
version = "0.1.0"
edition = "2021"
publish = false

[dependencies]
similar = "2"
chrono = "0.4"
anyhow = "1"
serde = { version = "1", features = ["derive"] }
serde_json = "1"
dirs = "*"
syntect = "*"
gix = "*"
