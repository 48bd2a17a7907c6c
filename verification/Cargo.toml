[package]
name = "feistel"
version = "0.1.0"
edition = "2021"
publish = false

[dependencies]
sha3 = "0.8"

[dev-dependencies]
rand = "0.8"
pretty-hex = "0.4"
