[package]
name = "outline_tree"
version = "0.1.0"
edition = "2021"
publish = false

[dependencies]
ascii_tree = "*"

[dev-dependencies]
regex = "1"
