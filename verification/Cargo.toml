[package]
name = "latex_rs"
version = "0.1.0"
edition = "2021"
publish = false

[dependencies]
clap = { version = "=4.6.7", features = ["derive"] }
printpdf = { version = "=0.5.3", default-features = false }
