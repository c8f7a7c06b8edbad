[package]
name = "querypath"
version = "1.0.0"
edition = "2021"
publish = false

[dependencies]
anyhow = "1"
regex = "1"
walkdir = "2"
