[package]
name = "thefmt"
version = "0.1.0"
edition = "2021"
publish = false

[dependencies]
markdown = "1"
unicode-width = "0.2"
