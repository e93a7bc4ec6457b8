[package]
name = "discord-desktop-fixer"
version = "0.1.0"
edition = "2021"
publish = false

[dependencies]
anyhow = "1"
dirs = "*"
walkdir = "2"
sysinfo = "*"
eframe = { version = "*", default-features = false, features = ["default_fonts", "glow", "x11"] }
