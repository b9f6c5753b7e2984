[package]
name = "publet"
version = "0.1.0"
edition = "2021"
publish = false

[dependencies]
sha2 = "0.10"
ed25519-dalek = "2"
unicode-normalization = "0.1"

[dev-dependencies]
ed25519-dalek = "2"
