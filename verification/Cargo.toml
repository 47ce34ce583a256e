[package]
name = "solvers"
version = "0.1.0"
edition = "2021"
publish = false

[dependencies]
graph = "*"
priority-queue = "*"
rand = "0.8"
