[package]
name = "hashcode2019"
version = "0.1.0"
edition = "2021"
publish = false

[dependencies]
fnv = "1"
rayon = "1"
structopt = "0.3"
