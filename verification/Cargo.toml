[package]
name = "exponential_histogram"
version = "0.1.0"
edition = "2021"
publish = false

[dependencies]
arc-swap = "*"
atomic_float = "*"
itertools = "*"
