[package]
name = "azul"
version = "0.1.0"
edition = "2021"
publish = false

[dependencies]
rand = "0.8"
modular-bitfield = "0.11"
thousands = "0.2"
