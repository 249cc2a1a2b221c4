[package]
name = "h2_zero"
version = "0.4.0"
edition = "2021"
publish = false

[dependencies]
bytes = "1"
http = "1"
