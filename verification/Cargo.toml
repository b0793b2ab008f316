[package]
name = "road_network"
version = "0.1.0"
edition = "2021"
publish = false

[dependencies]
rand = "0.8"
clap = { version = "4", features = ["derive"] }
bevy = { version = "0.12", default-features = false }
bevy_tweening = { version = "0.9", default-features = false }
