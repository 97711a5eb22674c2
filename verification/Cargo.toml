[package]
name = "snyder"
version = "0.1.0"
edition = "2021"

[dependencies]
itertools = "0.12"
rand = "0.8"
