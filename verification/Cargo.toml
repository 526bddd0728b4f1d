[package]
name = "str_extensions"
version = "0.1.0"
edition = "2021"
publish = false

[dependencies]
notko = "=0.0.1"
