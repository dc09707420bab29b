[package]
name = "hyle"
version = "0.1.0"
edition = "2021"
publish = false

[dependencies]
sha3 = "0.10"
hex = "0.4"
sled = "0.34"
clap = { version = "4", features = ["derive"] }
