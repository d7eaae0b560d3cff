[package]
name = "syndrome"
version = "0.1.0"
edition = "2021"
publish = false

[dependencies]
core_affinity = "*"
libm = "*"
serde_json = "*"
