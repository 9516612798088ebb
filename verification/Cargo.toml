[package]
name = "esperto"
version = "0.1.0"
edition = "2021"
publish = false

[dependencies]
frozen-collections = "*"
tinyset = "0.5.4"
