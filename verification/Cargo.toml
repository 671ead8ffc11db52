[package]
name = "tools"
version = "0.1.0"
edition = "2021"
publish = false

[dependencies]
clap = "2"
env_logger = "0.10"
mdbook = { version = "0.4", default-features = false }
pandoc_ast = "0.8"
serde_json = "1"
tempdir = "0.3"
toml = "0.8"
