[package]
name = "wrap_symbols"
version = "0.1.0"
edition = "2021"
publish = false

[dependencies]
flexi_logger = "*"
log = "*"
