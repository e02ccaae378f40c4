[package]
name = "lie"
version = "0.1.0"
edition = "2021"
publish = false

[dependencies]
num-complex = "*"
approx = { version = "*", features = ["num-complex"] }
ndarray = "*"
