[package]
name = "floating_layer"
version = "0.1.0"
edition = "2021"
publish = false

[dependencies]
glamour = "*"
itertools = "*"
skia-safe = "*"
