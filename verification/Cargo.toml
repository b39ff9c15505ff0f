[package]
name = "minizlib"
version = "0.1.1"
edition = "2021"
publish = false

[dev-dependencies]
flate2 = "1"
