[package]
name = "anotlisp"
version = "0.1.0"
edition = "2021"

[dependencies]
rustyline = "10"
