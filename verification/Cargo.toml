[package]
name = "slicer"
version = "0.1.0"
edition = "2021"
publish = false

[dependencies]
anyhow = "1"
clang = "2"
clap = { version = "4", features = ["derive"] }
glob = "0.3"
once_cell = "1"
regex = "1"
serde = { version = "1", features = ["derive"] }
serde_json = "1"
tempfile = "3"
thiserror = "1"
toml = "0.8"
tracing = "0.1"
