[package]
name = "midencrypto"
version = "0.1.0"
edition = "2021"
publish = false

[dependencies]
winter-math = "*"
winter-utils = "*"
blake3 = "*"
rand_core = "0.6"
unicode-width = "*"
thiserror = "*"
