[package]
name = "deadnix"
version = "0.1.0"
edition = "2021"
publish = false

[dependencies]
rnix = "0.10"
rowan = "0.12"
