[package]
name = "algorithms"
version = "0.1.0"
edition = "2021"

[dependencies]
num-traits = "0.2"

[dev-dependencies]
rand = "0.8"
