[package]
name = "fabrik"
version = "0.3.0"
edition = "2021"
publish = false

[dependencies]
clap = { version = "3", features = ["cargo"] }
