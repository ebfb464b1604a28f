[package]
name = "grug"
version = "0.1.0"
edition = "2021"
publish = false

[dependencies]
anyhow = "1"
k256 = { version = "0.13", features = ["ecdsa", "sha256"] }
rand = "0.8"
sha2 = "0.10"
serde = { version = "1", features = ["derive"] }
serde_json = "1"
borsh = { version = "1", features = ["derive"] }
