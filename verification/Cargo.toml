[package]
name = "pdf_paragraph"
version = "0.1.0"
edition = "2021"
publish = false

[dependencies]
iter_tools = "*"
maybe-owned = "*"
