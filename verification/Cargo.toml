[package]
name = "mdmodels"
version = "0.1.0"
edition = "2021"
publish = false

[dependencies]
pulldown-cmark = "0.8"
gray_matter = "*"
serde = { version = "1", features = ["derive"] }
