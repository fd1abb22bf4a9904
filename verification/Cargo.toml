[package]
name = "tablecopy"
version = "0.1.0"
edition = "2021"
publish = false

[dependencies]
unicode-width = "0.2"
resvg = "0.45"
arboard = "3"
clap = { version = "4", features = ["derive"] }
objc2 = "0.6"
objc2-app-kit = "0.3"
objc2-foundation = "0.3"
