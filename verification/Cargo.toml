[package]
name = "aevrix"
version = "0.1.0"
edition = "2021"
publish = false

[dependencies]
sha2 = "0.10"
base64 = "0.22"
url = "2"
font8x8 = "0.3"
png = "0.17"
jpeg-decoder = "0.3"
gif = "0.13"
once_cell = "1"
anyhow = "1"
clap = { version = "4", features = ["derive"] }
