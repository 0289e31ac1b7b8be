[package]
name = "ketree"
version = "0.1.0"
edition = "2021"
publish = false

[dependencies]
ketos = "*"
ketos_derive = "*"
