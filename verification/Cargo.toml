[package]
name = "gameoflight"
version = "0.1.0"
edition = "2021"
publish = false

[dependencies]
rand = "0.8"
tokio-channel = "0.1"
futures = "0.1"
tokio-core = "0.1"
websocket = { version = "0.20", default-features = false, features = ["async"] }
clap = "2"
actix = "0.5"
serde = { version = "1", features = ["derive"] }
serde_derive = "1"
serde_json = "1"
clightningrpc = "*"
