[package]
name = "vector_engine"
version = "0.1.0"
edition = "2021"
publish = false

[dependencies]
crc32fast = "*"
rand = "*"
memmap2 = "*"
core_affinity = "*"
rayon = "*"
