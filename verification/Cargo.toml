[package]
name = "geng"
version = "0.1.0"
edition = "2021"
publish = false

[dependencies]
bitvec = "1"
itertools = "0.14"
clap = { version = "4", features = ["derive"] }
