[package]
name = "libreda_db"
version = "0.1.0"
edition = "2021"
publish = false

[dependencies]
fnv = "1"
iron-shapes = "*"
num-traits = "0.2"
itertools = "*"
