[package]
name = "lavaxemu_core"
version = "0.1.0"
edition = "2021"
publish = false

[dependencies]
encoding_rs = "=0.8.44"
crc32fast = "=1.5.4"
clap = { version = "=4.6.7", features = ["derive"] }
anyhow = "=1.0.104"
minifb = "=0.29.0"
image = { version = "0.25", default-features = false, features = ["png"] }
