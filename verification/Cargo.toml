[package]
name = "backup_engine"
version = "0.1.0"
edition = "2021"
publish = false

[dependencies]
chrono = "0.4"
serde = "1"
serde_derive = "1"
tar = "0.4"
toml = "0.5"
walkdir = "2"
