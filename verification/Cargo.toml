[package]
name = "sm_logic"
version = "0.1.0"
edition = "2021"
publish = false

[dependencies]
crossterm = "*"
hex = "*"
itertools = "*"
serde_json = "*"
