[package]
name = "kalaha"
version = "0.1.0"
edition = "2021"
publish = false

[dependencies]
byteorder = "1"
num_cpus = "1"
rand = "0.4"
