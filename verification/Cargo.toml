[package]
name = "thesia"
version = "0.1.0"
edition = "2021"
publish = false

[dependencies]
ndarray = "0.16"
num-traits = "0.2"
approx = "0.5"
chrono = "0.4"
itertools = "*"
