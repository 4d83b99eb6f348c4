[package]
name = "daedalus"
version = "0.1.0"
edition = "2021"
publish = false

[dependencies]
rand = "0.4"
image = "0.18"
minifb = "0.10"
