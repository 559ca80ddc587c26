[package]
name = "rusty_vault"
version = "0.1.0"
edition = "2021"
publish = false

[dependencies]
bcrypt = "=0.15.1"
rust-crypto = "=0.2.36"
rand = "=0.8.8"
serde = { version = "=1.0.229", features = ["derive"] }
serde_cbor = "=0.11.2"
clap = { version = "=4.6.7", features = ["cargo", "string"] }
