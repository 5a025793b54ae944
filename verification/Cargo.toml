[package]
name = "jisho"
version = "0.1.0"
edition = "2021"
publish = false

[dependencies]
bitcode = "*"
flate2 = "*"
rustyline = "*"
