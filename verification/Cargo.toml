[package]
name = "legixy"
version = "0.4.0"
edition = "2021"
publish = false

[dependencies]
indexmap = "2"
sha2 = "0.10"
unicode-normalization = "0.1"
regex = "1"
serde = { version = "1", features = ["derive"] }
serde_json = "1"
toml = "*"
clap = { version = "4", features = ["derive"] }
thiserror = "*"
rusqlite = { version = "*", features = ["bundled"] }
