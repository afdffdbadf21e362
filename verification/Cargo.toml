[package]
name = "erl_ext"
version = "0.1.0"
edition = "2021"
publish = false

[dev-dependencies]
num = "*"
