[package]
name = "kitties"
version = "0.1.0"
edition = "2021"
publish = false

[dependencies]
blake2-rfc = "0.2"
byteorder = "=1.5.0"
parity-scale-codec = "=1.3.7"
