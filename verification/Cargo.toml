[package]
name = "rfb_labs"
version = "0.1.0"
edition = "2021"
publish = false

[dependencies]
byteorder = "1"
hex = "0.4"
sha2 = "0.10"
serde = { version = "1", features = ["derive"] }
serde_json = "1"
