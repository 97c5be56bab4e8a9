[package]
name = "litex-hal"
version = "0.1.0"
edition = "2021"
publish = false

[dependencies]
embedded-hal = "1.0.0"
embedded-io = "0.6"
nb = "1.1.0"
