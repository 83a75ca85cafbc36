[package]
name = "sarateese"
version = "0.1.0"
edition = "2021"
publish = false

[dependencies]
regex = "1"
colored = "2"
chrono = "0.4"
