[package]
name = "serde_bench"
version = "0.1.0"
edition = "2021"
publish = false

[dependencies]
rand = "*"

[dev-dependencies]
bigint = "*"
