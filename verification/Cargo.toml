[package]
name = "two_strip"
version = "0.1.0"
edition = "2021"

[dependencies]
image = "*"
threadpool = "*"
