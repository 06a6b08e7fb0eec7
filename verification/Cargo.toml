[package]
name = "mate_rs"
version = "0.2.0"
edition = "2021"
publish = false

[dependencies]
regex = "1"
substring = "1"
colored = "2"
