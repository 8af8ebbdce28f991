[package]
name = "file_help"
version = "0.1.0"
edition = "2021"
publish = false

[dependencies]
regex = "=1.13.1"
thiserror = "=2.0.21"
image = { version = "=0.25.10", default-features = false, features = ["png", "jpeg", "webp"] }
pdf-extract = "=0.12.1"
dotext = "=0.1.1"
markdown2pdf = "=1.6.2"
