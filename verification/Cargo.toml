[package]
name = "ll_core"
version = "0.1.0"
edition = "2021"
publish = false

[dependencies]
clap = { version = "4", features = ["derive"] }
dirs = "*"
notify = "*"
reqwest = { version = "*", default-features = false }
serde = { version = "1", features = ["derive"] }
serde_json = "1"
shellexpand = "3"
thiserror = "*"
toml = "*"
zip = { version = "*", default-features = false, features = ["deflate"] }
