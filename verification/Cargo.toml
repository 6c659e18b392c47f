[package]
name = "picseal"
version = "0.1.0"
edition = "2021"
publish = false

[dependencies]
crc32fast = "1"
kamadak-exif = "0.6"
png = "0.18"
gloo-utils = { version = "0.2", features = ["serde"] }
serde = { version = "1", features = ["derive"] }
wasm-bindgen = "0.2"
