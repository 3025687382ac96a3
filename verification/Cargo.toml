[package]
name = "adzuki"
version = "0.1.0"
edition = "2021"
publish = false

[dependencies]
rust_decimal = "1"
codespan-reporting = "*"
uniffi = "*"

[dev-dependencies]
logos = "*"
