[package]
name = "narmax"
version = "0.1.0"
edition = "2021"
publish = false

[dependencies]
nalgebra = "*"
argmin = "*"
argmin-math = { version = "*", features = ["vec"] }
finitediff = "*"
