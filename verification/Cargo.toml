[package]
name = "marked_path"
version = "0.2.0"
edition = "2021"
publish = false

[dependencies]
wherror = "*"
