[package]
name = "yamlkeep"
version = "0.1.0"
edition = "2021"
publish = false

[dependencies]
bstr = "*"
lexical-core = "*"
