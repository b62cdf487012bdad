[package]
name = "bittorrent_core"
version = "0.1.0"
edition = "2021"
publish = false

[dependencies]
sha1 = "*"
hex = "*"
serde_json = "*"
anyhow = "*"
clap = { version = "*", features = ["derive"] }
tokio = { version = "*", features = ["macros", "net", "rt-multi-thread", "io-util"] }
reqwest = { version = "*", default-features = false }
