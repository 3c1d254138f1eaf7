[package]
name = "quircs"
version = "0.10.0"
edition = "2021"
publish = false

[dependencies]
num-derive = "*"
num-traits = "0.2"
thiserror = "=1.0.69"
