[package]
name = "subrip"
version = "0.1.0"
edition = "2021"
publish = false

[dependencies]
docx-rust = "*"
strip_bom = "*"
