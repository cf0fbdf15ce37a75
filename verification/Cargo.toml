[package]
name = "ensync"
version = "0.1.0"
edition = "2021"
publish = false

[dependencies]
chrono = "0.2"
fourleaf = "*"
rand = "0.3"
rpassword = "*"
rust-crypto = "0.2.36"
tiny-keccak = "1"
toml = "0.2"
