[package]
name = "ithos"
version = "0.1.0"
edition = "2021"
publish = false

[dependencies]
ring = "=0.17.14"
scrypt = "=0.12.0"
rpassword = "=7.5.4"
