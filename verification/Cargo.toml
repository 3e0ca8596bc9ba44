[package]
name = "network_shapley"
version = "0.1.0"
edition = "2021"
publish = false

[dependencies]
rust_decimal = "1"
clarabel = "*"
rayon = "1"
rand = "0.8"
thiserror = "1"
