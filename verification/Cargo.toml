[package]
name = "beefy_commitment"
version = "0.1.0"
edition = "2021"
publish = false

[dependencies]
k256 = "*"
sha3 = "*"
