[package]
name = "rustcycles"
version = "0.1.0"
edition = "2021"
publish = false

[dependencies]
cvars = "*"
fyrox = "=0.27.1"
