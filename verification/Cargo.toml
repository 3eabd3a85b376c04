[package]
name = "lattix"
version = "0.1.0"
edition = "2021"
publish = false

[dependencies]
petgraph = "*"
rand = "0.9"
rand_xorshift = "0.4"
rayon = "*"
thiserror = "*"
graphops = "*"
