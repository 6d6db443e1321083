[package]
name = "velox_mpc"
version = "0.1.0"
edition = "2021"
publish = false

[dependencies]
lambdaworks-math = "*"
bincode = "1.3"
anyhow = "1"
log = "0.4"
