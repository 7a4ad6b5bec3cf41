[package]
name = "xtorrent"
version = "0.1.0"
edition = "2021"
publish = false

[dependencies]
sha1 = "0.10"
clap = { version = "4", features = ["derive"] }
reqwest = { version = "0.12", default-features = false }
