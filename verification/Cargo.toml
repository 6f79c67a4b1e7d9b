[package]
name = "exs"
version = "0.1.0"
edition = "2021"
publish = false

[dependencies]
rand = "0.8"
lexopt = "0.3"
