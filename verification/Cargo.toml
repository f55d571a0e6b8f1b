[package]
name = "style_cache"
version = "0.1.0"
edition = "2021"
publish = false

[dependencies]
gitignore = "*"
log = "*"
sass-rs = "*"

[dev-dependencies]
tempfile = "*"
