[package]
name = "andromeda"
version = "0.1.0"
edition = "2021"
publish = false

[dependencies]
regex = "1"
rounded-div = "*"
crossbeam = "0.8"
