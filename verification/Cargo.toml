[package]
name = "pairlang"
version = "0.1.0"
edition = "2021"
publish = false

[dependencies]
bimap = "*"
rand = "0.8"
