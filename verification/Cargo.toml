[package]
name = "erebus_inputs"
version = "0.1.0"
edition = "2021"
publish = false

[dependencies]
bulletformat = "=1.8.0"
sfbinpack = "=0.6.5"
