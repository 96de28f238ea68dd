[package]
name = "g2field"
version = "0.1.0"
edition = "2021"
publish = false

[dependencies]
g2poly = "*"
