[package]
name = "bacon_cipher"
version = "0.1.0"
edition = "2021"

[dependencies]
html5ever = "0.23"
