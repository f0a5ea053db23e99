[package]
name = "reduction_ops"
version = "0.1.0"
edition = "2021"
publish = false

[dependencies]
ndarray = "0.15"
num-traits = "0.2"
