[package]
name = "linkcell"
version = "0.3.3"
edition = "2021"
publish = false

[dependencies]
minimage = "*"
