[package]
name = "sc_delegation"
version = "0.1.0"
edition = "2021"
publish = false

[dependencies]
