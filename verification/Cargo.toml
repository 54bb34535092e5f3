[package]
name = "lumio_core"
version = "0.1.0"
edition = "2021"
publish = false

[dependencies]
rstar = "0.12.2"
