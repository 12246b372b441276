[package]
name = "kalkulator"
version = "0.1.1"
edition = "2021"
publish = false

[dependencies]
clap = { version = "4", features = ["derive"] }
lazy_static = "1"
