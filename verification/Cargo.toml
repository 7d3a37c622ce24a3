[package]
name = "stream_depletion"
version = "0.1.0"
edition = "2021"
publish = false

[dependencies]
chrono = "0.4"
itertools = "*"
scirs2-special = "*"
serde = { version = "1", features = ["derive"] }
