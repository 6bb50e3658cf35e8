[package]
name = "ytmp3"
version = "0.1.0"
edition = "2021"
publish = false

[dependencies]
eframe = { version = "*", default-features = false, features = ["glow", "default_fonts", "x11"] }
rfd = { version = "*", default-features = false, features = ["xdg-portal", "tokio"] }
dirs-next = "*"
