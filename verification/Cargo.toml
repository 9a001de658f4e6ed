[package]
name = "parallel_encode"
version = "0.1.0"
edition = "2021"
publish = false

[dependencies]
memchr = "2"
rayon = "1"
