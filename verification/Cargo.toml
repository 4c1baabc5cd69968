[package]
name = "asciidork_parser"
version = "0.1.0"
edition = "2021"
publish = false

[dependencies]
regex = "1"
bumpalo = { version = "3", features = ["collections"] }
jiff = "0.2"
