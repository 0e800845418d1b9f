[package]
name = "specimen"
version = "0.1.0"
edition = "2021"
publish = false

[dependencies]
linked-hash-map = "0.5"
yaml-rust = "0.4"
