[package]
name = "download_cleaner"
version = "0.1.0"
edition = "2021"
publish = false

[dependencies]
anyhow = "1"
plist = "1"
url = "2"
xattr = "1"
notify = "8"
serde_json = "1"
rfd = "0.17"
eframe = { version = "0.37", default-features = false, features = ["default_fonts", "glow", "x11"] }
