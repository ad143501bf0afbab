[package]
name = "kor"
version = "0.1.0"
edition = "2021"
publish = false

[dependencies]
argonaut = "=0.12.0"
