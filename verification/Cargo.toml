[package]
name = "tt_min"
version = "0.1.0"
edition = "2021"
publish = false

[dependencies]
linked-hash-map = "*"
