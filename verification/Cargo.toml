[package]
name = "regex_examples"
version = "0.1.0"
edition = "2021"
publish = false

[dependencies]
anyhow = "1"
itertools = "*"
thiserror = "1"
