[package]
name = "darkbird"
version = "0.1.0"
edition = "2021"
publish = false

[dependencies]
anymap = "*"
tokio = { version = "*", features = ["rt", "sync", "time"] }
