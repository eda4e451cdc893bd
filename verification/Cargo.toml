[package]
name = "rresp"
version = "0.1.0"
edition = "2021"
publish = false

[dependencies]
lexical = "*"
memchr = "*"
minivec = "*"
thiserror = "*"
