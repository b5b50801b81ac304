[package]
name = "microwfc"
version = "0.1.0"
edition = "2021"
publish = false

[dependencies]
micro_ndarray = "*"
rand = "0.8"
