[package]
name = "top_group"
version = "0.1.0"
edition = "2021"
publish = false

[dependencies]
procfs = "*"
size_format = "*"
