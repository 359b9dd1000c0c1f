[package]
name = "dynamic_histogram"
version = "0.1.0"
edition = "2021"
publish = false

[dependencies]
id-vec = "*"
num = "*"
ord_subset = "*"
