[package]
name = "lockstep_mazes"
version = "0.1.0"
edition = "2021"
publish = false

[dependencies]
scanner-rust = "*"
