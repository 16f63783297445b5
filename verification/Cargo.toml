[package]
name = "float"
version = "0.1.0"
edition = "2021"
publish = false

[dependencies]
ramp = "=0.6.0"
num-bigint = { version = "=0.4.8", features = ["rand"] }
num-integer = "=0.1.47"
num-traits = "=0.2.19"
ieee754 = "=0.2.6"
rand = "=0.8.8"
