[package]
name = "cert_readme"
version = "0.1.0"
edition = "2021"
publish = false

[dependencies]
anyhow = "1"
html-escape = "0.2"
regex = "1"
urlencoding = "2"
walkdir = "2"
