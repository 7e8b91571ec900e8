[package]
name = "arff_reader"
version = "0.1.0"
edition = "2021"
publish = false

[dependencies]
itertools = "0.12"
rand = "0.8"
utc-dt = "*"
