[package]
name = "txget"
version = "0.1.0"
edition = "2021"
publish = false

[dependencies]
anyhow = "1"
clap = { version = "4", features = ["derive"] }
genpdf = "0.2"
html-escape = "0.2"
pulldown-cmark = "*"
regex = "1"
serde_json = "1"
sevenz-rust = "*"
tempfile = "3"
walkdir = "2"
zip = "*"
