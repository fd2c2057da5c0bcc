[package]
name = "mkbsc"
version = "0.1.0"
edition = "2021"
publish = false

[dependencies]
fixedbitset = "0.4"
vec_map = "0.8"
bit-set = "0.5"
disjoint-sets = "0.4"
clap = { version = "3", features = ["derive"] }
anyhow = "1"
