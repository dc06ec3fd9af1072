[package]
name = "bittorrent"
version = "0.1.0"
edition = "2021"
publish = false

[dependencies]
anyhow = "*"
bytes = "*"
clap = { version = "*", features = ["derive"] }
futures-util = "*"
hex = "*"
reqwest = { version = "*", default-features = false }
sha1 = "*"
tokio = { version = "*", features = ["macros", "rt-multi-thread", "net", "io-util", "fs"] }
tokio-util = { version = "*", features = ["codec"] }
