[package]
name = "jit_calc"
version = "0.1.0"
edition = "2021"
publish = false

[dependencies]
mmap = "0.1"
