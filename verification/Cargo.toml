[package]
name = "order_matcher"
version = "0.1.0"
edition = "2021"
publish = false

[dependencies]
im = "15.1"
itertools = "0.12"
futures = "0.3"
async-std = { version = "1.12", features = ["attributes"] }

[dev-dependencies]
nom = "7.1"
