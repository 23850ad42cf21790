[package]
name = "omarchy_syncd"
version = "0.1.0"
edition = "2021"
publish = false

[dependencies]
anyhow = "*"
clap = { version = "*", features = ["derive"] }
serde = { version = "*", features = ["derive"] }
toml = "*"
walkdir = "*"
tempfile = "*"
which = "*"
