[package]
name = "gaussfuse"
version = "0.1.0"
edition = "2021"
publish = false

[dependencies]
statrs = "0.17"
