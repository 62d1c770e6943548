[package]
name = "cargo_aspect"
version = "0.1.0"
edition = "2021"
publish = false

[dependencies]
adjacent-pair-iterator = "*"
fs_extra = "1"
regex = "1"
serde = { version = "1", features = ["derive"] }
toml = "*"
