[package]
name = "rust_formatter"
version = "0.1.0"
edition = "2021"
publish = false

[dependencies]
ra_ap_syntax = "=0.0.320"
comrak = { version = "=0.59.0", default-features = false }
anyhow = "=1.0.104"
clap = { version = "=4.6.7", features = ["derive"] }
