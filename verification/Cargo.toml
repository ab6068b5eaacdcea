[package]
name = "everything_index"
version = "0.1.0"
edition = "2021"
publish = false

[dependencies]
regex = "*"
memmap2 = "*"
walkdir = "*"
