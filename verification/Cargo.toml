[package]
name = "suppa"
version = "0.2.0"
edition = "2021"
publish = false

[dependencies]
anyhow = "1"
clap = { version = "4", features = ["derive"] }
colored = "*"
dirs = "*"
regex = "1"
serde = { version = "1", features = ["derive"] }
serde_json = "1"
toml = { version = "*", features = ["preserve_order"] }
toon-format = "*"
