[package]
name = "uleb128"
version = "0.1.0"
edition = "2021"
publish = false

[dependencies]
quick-error = "2"
