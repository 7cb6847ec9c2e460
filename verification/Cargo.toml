[package]
name = "puzzle_kernels"
version = "0.1.0"
edition = "2021"
publish = false

[dependencies]
array2d = "0.3"
petgraph = "0.6"
regex = "1"
