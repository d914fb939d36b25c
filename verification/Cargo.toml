[package]
name = "mdrender"
version = "0.1.0"
edition = "2021"
publish = false

[dependencies]
pulldown-cmark = { version = "0.13", default-features = false, features = ["html"] }
anyhow = "1"
clap = { version = "4", features = ["derive"] }
notify = "8"
walkdir = "2"
