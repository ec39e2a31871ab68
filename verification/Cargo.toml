[package]
name = "pinyin_ime"
version = "0.1.0"
edition = "2021"
publish = false

[dependencies]
pinyin = "=0.11.0"
lru = { version = "=0.19.0", default-features = false }
