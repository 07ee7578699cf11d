[package]
name = "rust_manager"
version = "0.1.0"
edition = "2021"
publish = false

[dependencies]
marc = "*"
clap = { version = "*", features = ["derive"] }
dotenvy = "*"
flate2 = "*"
serde = { version = "*", features = ["derive"] }
serde-xml-rs = "*"
tar = "*"
