[package]
name = "cang_jie"
version = "0.1.0"
edition = "2021"
publish = false

[dependencies]
jieba-rs = "*"
tantivy = { version = "*", default-features = false }
log = "*"
