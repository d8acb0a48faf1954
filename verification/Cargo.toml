[package]
name = "eter_prisma"
version = "1.0.1"
edition = "2021"
publish = false

[dependencies]
realfft = "3"
