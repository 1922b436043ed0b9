[package]
name = "huff"
version = "0.1.0"
edition = "2021"
publish = false

[dependencies]
bv = "0.11"
