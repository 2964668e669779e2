[package]
name = "supersig"
version = "0.1.0"
edition = "2021"
publish = false

[dependencies]
sp-core = "*"
sp-runtime = "*"
sp-io = "*"
frame-support = "*"
frame-system = "*"
