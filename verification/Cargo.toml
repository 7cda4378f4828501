[package]
name = "rubify"
version = "0.1.0"
edition = "2021"
publish = false

[dependencies]
pinyin = "*"
wana_kana = "*"
read-fonts = "*"
skrifa = "*"
clap = { version = "*", features = ["derive"] }
glob = "*"
anyhow = "*"
