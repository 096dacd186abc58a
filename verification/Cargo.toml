[package]
name = "xor_utils"
version = "0.1.0"
edition = "2021"
publish = false

[dependencies]
hamming = "0.1"
log = "0.4"
