[package]
name = "permtree"
version = "0.1.0"
edition = "2021"
publish = false

[dependencies]
users = "0.11"
clap = "4"
