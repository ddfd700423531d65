[package]
name = "bitrain_core"
version = "0.1.0"
edition = "2021"
publish = false

[dependencies]
byteorder = "1"
bufstream = "*"
serde = { version = "1", features = ["derive"] }
serde_bencoded = "*"
serde_bytes = "*"
