[package]
name = "vger"
version = "0.1.0"
edition = "2021"
publish = false

[dependencies]
swash = "0.2"
