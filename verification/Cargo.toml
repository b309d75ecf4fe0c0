[package]
name = "pdf_to_image"
version = "0.4.0"
edition = "2021"
publish = false

[dependencies]
image = { version = "0.25", default-features = false, features = ["png", "jpeg", "tiff"] }
webp = "0.3"
pdfium-render = "*"
