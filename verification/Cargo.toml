[package]
name = "regex_engine"
version = "0.1.0"
edition = "2021"
publish = false

[dependencies]
anyhow = "1"
cxx = "1"
regex = "1"
regex-syntax = "0.6"
