[package]
name = "spider"
version = "0.1.0"
edition = "2021"
publish = false

[dependencies]
url = "*"
linkify = "*"
ratelimit = "*"
reqwest = { version = "*", default-features = false, features = ["blocking"] }
clap = { version = "*", features = ["derive"] }
colored = "*"
tracing = "*"
tracing-subscriber = "*"
