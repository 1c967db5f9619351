[package]
name = "brlang"
version = "0.1.0"
edition = "2021"
publish = false

[dependencies]
im = "=15.1.0"
rand = "=0.9.5"
