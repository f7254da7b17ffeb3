[package]
name = "unused_buddy"
version = "0.1.0"
edition = "2021"
publish = false

[dependencies]
anyhow = "=1.0.104"
clap = { version = "=4.6.7", features = ["derive"] }
globset = "=0.4.21"
owo-colors = "=4.4.0"
oxc_allocator = "=0.100.0"
oxc_parser = "=0.100.0"
oxc_span = "=0.100.0"
oxc_syntax = "=0.100.0"
regex = "=1.13.1"
serde = { version = "=1.0.229", features = ["derive"] }
serde_json = "=1.0.154"
toml = "=0.8.23"
walkdir = "=2.5.0"
