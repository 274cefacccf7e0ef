[package]
name = "loon"
version = "0.1.0"
edition = "2021"
publish = false

[dependencies]
miniscript = "12"
bitcoin = "0.32"
rand = "0.8"
rusqlite = { version = "0.31", features = ["bundled"] }
clap = { version = "4", features = ["derive"] }
anyhow = "1"
