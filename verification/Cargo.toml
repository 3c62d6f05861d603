[package]
name = "jp_word_segment"
version = "0.1.0"
edition = "2021"
publish = false

[dependencies]
lindera = "*"
