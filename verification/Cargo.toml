[package]
name = "gomoku"
version = "0.1.0"
edition = "2021"
publish = false

[dependencies]
rand = "0.5"
failure = "0.1"
failure_derive = "0.1"
