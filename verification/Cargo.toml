[package]
name = "pang_formats"
version = "0.1.0"
edition = "2021"
publish = false

[dependencies]
pang = "*"
crc = "*"
env_logger = "*"
