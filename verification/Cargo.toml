[package]
name = "hash_finder"
version = "0.1.0"
edition = "2021"
publish = false

[dependencies]
clap = "4"
rayon = "1"
sha2 = "0.10"
