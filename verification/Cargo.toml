[package]
name = "pactlers"
version = "0.1.0"
edition = "2021"
publish = false

[dependencies]
bincode = "2"
thiserror = "1"
tokio = { version = "1", features = ["full"] }
tokio-util = { version = "0.7", features = ["codec"] }
tokio-serial = { version = "5", default-features = false }
futures = "0.3"
async-channel = "2"
bytes = "1"
