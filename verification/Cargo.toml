[package]
name = "script_asm"
version = "0.1.0"
edition = "2021"
publish = false

[dev-dependencies]
hex-conservative = "*"
