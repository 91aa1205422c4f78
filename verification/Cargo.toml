[package]
name = "minimq"
version = "0.1.0"
edition = "2021"
publish = false

[dependencies]
embedded-nal = "0.1"
nb = "0.1"
