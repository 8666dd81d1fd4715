[package]
name = "transpose"
version = "0.1.0"
edition = "2021"
publish = false

[dev-dependencies]
num-integer = "0.1"
