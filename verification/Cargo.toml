[package]
name = "split_hashes"
version = "0.1.0"
edition = "2021"
publish = false

[dependencies]
chrono = "0.4"
chrono-humanize = "0.2"
keepass = "0.4"
num_cpus = "1"
rust-crypto = "0.2"
