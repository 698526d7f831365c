[package]
name = "repoblame"
version = "0.1.0"
edition = "2021"
publish = false

[dependencies]
bytelines = "2"
clap = { version = "4", features = ["derive"] }
content_inspector = "0.2"
crossterm = "*"
tabled = "0.15"
thousands = "0.2"
