[package]
name = "geph5_core"
version = "0.1.0"
edition = "2021"
publish = false

[dependencies]
blake3 = "1"
hex = "0.4"
base32 = "0.5"
rand = "0.8"
