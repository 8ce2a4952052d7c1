[package]
name = "minilisp"
version = "0.1.0"
edition = "2021"

[dependencies]
slab = "0.4"
