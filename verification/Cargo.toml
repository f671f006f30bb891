[package]
name = "mdviewer"
version = "0.1.0"
edition = "2021"
publish = false

[dependencies]
crossterm = "*"
pulldown-cmark = { version = "*", default-features = false }
syntect = { version = "5", default-features = false, features = ["default-fancy"] }
serde = { version = "1", features = ["derive"] }
serde_json = "1"
toml = "*"
dirs = "*"
unicode-width = "*"
base64 = "*"
libc = "0.2"
image = { version = "*", default-features = false, features = ["png"] }
regex = "1"
