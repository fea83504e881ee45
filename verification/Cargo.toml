[package]
name = "dupdirfinder"
version = "0.1.0"
edition = "2021"
publish = false

[dependencies]
blake2 = "0.8"
byteorder = "1"
clap = "2"
unbytify = "*"
walkdir = "2"
