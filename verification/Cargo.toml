[package]
name = "tile_dqn"
version = "0.1.0"
edition = "2021"
publish = false

[dependencies]
rand = "0.9"
zstd = "0.13"
serde = { version = "1", features = ["derive"] }
serde_json = "1"
