[package]
name = "seisreinas2"
version = "0.1.0"
edition = "2021"
publish = false

[dependencies]
cursive = "*"
itertools = "*"
lazy_static = "1"
