[package]
name = "hummock"
version = "0.1.0"
edition = "2021"
publish = false

[dependencies]
crc32c = "*"
num-traits = "*"
parking_lot = "*"
prometheus = { version = "*", default-features = false }
tokio = { version = "*", features = ["sync", "macros", "rt"] }
twox-hash = "*"
