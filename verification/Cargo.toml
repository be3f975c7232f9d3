[package]
name = "bittorrent"
version = "0.1.0"
edition = "2021"
publish = false

[dependencies]
sha1 = "=0.11.0"
hex = "=0.4.3"
tokio = { version = "*", features = ["full"] }
tokio-util = { version = "*", features = ["codec"] }
futures-util = { version = "*", features = ["sink"] }
bytes = "*"
reqwest = { version = "*", default-features = false }
clap = { version = "*", features = ["derive"] }
anyhow = "*"
