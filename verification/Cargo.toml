[package]
name = "cidr_calc"
version = "0.1.0"
edition = "2021"
publish = false

[dev-dependencies]
regex = "1"
