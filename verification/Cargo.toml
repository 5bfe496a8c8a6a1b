[package]
name = "autograd"
version = "0.1.0"
edition = "2021"
publish = false

[dependencies]
rand = "0.8"
thiserror = "1"

[dev-dependencies]
rand_chacha = "0.3"
