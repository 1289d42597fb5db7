[package]
name = "tinyset"
version = "0.5.0"
edition = "2021"
publish = false

[dependencies]
fnv = "1.0"
