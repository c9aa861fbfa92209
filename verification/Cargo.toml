[package]
name = "xdp_dispatcher"
version = "0.1.0"
edition = "2021"
publish = false

[dependencies]
aya = "*"
named-lock = "*"
