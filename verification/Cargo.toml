[package]
name = "img_dumper"
version = "0.1.0"
edition = "2021"
publish = false

[dependencies]
anyhow = "1"
chrono = "0.4"
colored = "2"
dirs = "5"
walkdir = "2"
