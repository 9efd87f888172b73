[package]
name = "tsuro"
version = "0.1.0"
edition = "2021"
publish = false

[dependencies]
base64 = "=0.22.1"
lopdf = { version = "=0.34.0", default-features = false, features = ["nom_parser", "chrono_time"] }
rsa = { version = "=0.9.10", features = ["sha2"] }
sha1 = { version = "=0.10.7", features = ["oid"] }
sha2 = { version = "=0.10.9", features = ["oid"] }
x509-parser = "=0.16.0"
serde = { version = "=1.0.229", features = ["derive"] }
thiserror = "=1.0.69"
pdf-writer = "=0.12.1"
miniz_oxide = "=0.8.9"
printers = "=2.3.0"
unicode-normalization = "=0.1.26"
pdfium-render = "=0.8.37"
