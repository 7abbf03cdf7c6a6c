[package]
name = "zynk"
version = "0.1.0"
edition = "2021"
publish = false

[dependencies]
crc32fast = "1"
hex = "0.4"
rand = "0.8"
