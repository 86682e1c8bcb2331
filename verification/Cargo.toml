[package]
name = "grid_paths"
version = "0.1.0"
edition = "2021"
publish = false

[dependencies]
itertools = "0.12"
num-integer = "0.1"
rand = "0.8"
regex = "1"
