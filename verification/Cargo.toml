[package]
name = "anagrammer"
version = "0.1.0"
edition = "2021"
publish = false

[dependencies]
rayon = "1"
structopt = "0.3"
substring = "1"
