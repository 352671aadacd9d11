[package]
name = "general_ecc"
version = "0.1.0"
edition = "2021"
publish = false

[dependencies]
group = "0.11"
