[package]
name = "rustlike"
version = "0.1.0"
edition = "2021"
publish = false

[dependencies]
rltk = "0.8"
specs = "0.20"
specs-derive = "0.4"
