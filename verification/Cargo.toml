[package]
name = "pdf_reading_order"
version = "0.1.0"
edition = "2021"
publish = false

[dependencies]
image = { version = "*", default-features = false, features = ["png"] }
itertools = "*"
napi = { version = "2", default-features = false, features = ["napi4", "async"] }
napi-derive = "2"
once_cell = "1"
pdfium-render = "*"
