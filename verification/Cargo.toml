[package]
name = "kairoi"
version = "0.1.0"
edition = "2021"
publish = false

[dependencies]
chrono = "0.4"
uuid = { version = "1", features = ["v4"] }
crossbeam-channel = "0.5"
log = "0.4"
serde = { version = "1", features = ["derive"] }
serde_derive = "1"
config = "*"
simple_logger = "*"
clap = { version = "4", features = ["derive"] }
amiquip = { version = "*", default-features = false }
