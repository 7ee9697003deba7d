[package]
name = "q1tsim"
version = "0.1.0"
edition = "2021"

[dependencies]
ndarray = "*"
num-complex = "*"
