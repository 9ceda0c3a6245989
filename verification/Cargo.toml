[package]
name = "z157"
version = "0.1.0"
edition = "2021"
publish = false

[dependencies]
ego-tree = "=0.11.1"
