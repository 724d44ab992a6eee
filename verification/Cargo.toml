[package]
name = "unicode_render"
version = "0.1.0"
edition = "2021"
publish = false

[dependencies]
clap = { version = "4", features = ["derive"] }
fontdue = "*"
image = { version = "*", default-features = false, features = ["png", "jpeg", "gif", "bmp"] }
itertools = "*"
serde = { version = "1", features = ["derive"] }
