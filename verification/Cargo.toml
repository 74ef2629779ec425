[package]
name = "tylsmdb"
version = "0.1.0"
edition = "2021"
publish = false

[dependencies]
crossbeam-skiplist = "0.1"
zstd = "0.13"
