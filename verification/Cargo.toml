[package]
name = "fzzx"
version = "0.1.0"
edition = "2021"
publish = false

[dependencies]
lexopt = "0.3"
nucleo-matcher = "0.3"
objc2 = "0.6"
objc2-app-kit = "0.3"
objc2-foundation = "0.3"
