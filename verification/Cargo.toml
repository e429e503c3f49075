[package]
name = "immix_rust"
version = "0.1.0"
edition = "2021"
publish = false

[dependencies]
lazy_static = "1.4"
log = "0.4"
