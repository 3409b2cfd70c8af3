[package]
name = "witgen_core"
version = "0.1.0"
edition = "2021"
publish = false

[dependencies]
powdr-number = "=0.1.5"
