[package]
name = "bmark"
version = "0.1.0"
edition = "2021"
publish = false

[dependencies]
rusqlite = { version = "*", features = ["bundled"] }
uuid = { version = "1", features = ["v7"] }
clap = "4"
anyhow = "1"
