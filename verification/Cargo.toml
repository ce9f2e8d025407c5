[package]
name = "multisig"
version = "0.1.0"
edition = "2021"
publish = false

[dependencies]
fastcrypto = "*"
roaring = "*"
bcs = "*"

[dev-dependencies]
rand = "0.8"
