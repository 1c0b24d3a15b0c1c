[package]
name = "qr_decoder"
version = "0.1.0"
edition = "2021"
publish = false

[dependencies]
scraper = "*"
rxing = "*"
image = "*"
infer = "*"
pdfium-render = "*"
rayon = "*"
serde = { version = "*", features = ["derive"] }
actix-web = "*"
actix-multipart = "*"
