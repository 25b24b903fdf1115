[package]
name = "blob_decoder"
version = "0.1.0"
edition = "2021"

[dependencies]
external-memory-tools = "*"

[dev-dependencies]
alloy-rlp = "*"
hex = "*"
