[package]
name = "v1kpdb"
version = "0.1.0"
edition = "2021"
publish = false

[dependencies]
chrono = "0.4"
openssl = "0.10"
rand = "0.8"
