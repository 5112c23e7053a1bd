[package]
name = "emulate"
version = "0.1.0"
edition = "2021"
publish = false

[dependencies]
rand = "=0.8.8"

[dev-dependencies]
num-complex = "=0.4.6"
