[package]
name = "edivisive"
version = "0.1.0"
edition = "2021"
publish = false

[dependencies]
itertools = "0.10"
ndarray = "0.15"
rand = "0.8"
