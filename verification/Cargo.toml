[package]
name = "globe_rails"
version = "0.1.0"
edition = "2021"
publish = false

[dependencies]
priority-queue = "*"
crossbeam-channel = "*"
rand = "*"
statrs = "*"
