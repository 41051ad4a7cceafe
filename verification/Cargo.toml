[package]
name = "pdf_filler"
version = "0.1.0"
edition = "2021"
publish = false

[dependencies]
lopdf = "*"
serde_json = "1"
