[package]
name = "difft_style"
version = "0.1.0"
edition = "2021"
publish = false

[dependencies]
line-numbers = "=0.4.0"
owo-colors = "=4.4.0"
unicode-width = "=0.1.11"
