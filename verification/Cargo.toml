[package]
name = "bpsim"
version = "0.1.0"
edition = "2021"
publish = false

[dependencies]
rev_lines = "*"
env_logger = "*"
