[package]
name = "winstow"
version = "0.1.0"
edition = "2021"
publish = false

[dependencies]
glob = "0.3"
clap = { version = "4", features = ["derive"] }
serde = { version = "1", features = ["derive"] }
toml = "0.8"
dirs = "5"
