[package]
name = "chat_relay"
version = "0.1.0"
edition = "2021"
publish = false

[dependencies]
rand = "0.8"
slug = "0.1"
tokio = { version = "1", features = ["rt-multi-thread", "net", "io-util", "macros", "sync", "time"] }
clap = { version = "4", features = ["derive"] }
log = "0.4"
env_logger = "0.11"
