[package]
name = "rummikub"
version = "0.1.0"
edition = "2021"

[dependencies]
iter_tools = "*"
rand = "0.8"
