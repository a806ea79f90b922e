[package]
name = "hex_rgb"
version = "0.1.0"
edition = "2021"
publish = false

[dependencies]
copypasta = "*"
owo-colors = "*"
structopt = "0.3"
