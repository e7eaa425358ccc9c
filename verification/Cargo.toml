[package]
name = "pdfmerge"
version = "0.1.0"
edition = "2021"
publish = false

[dependencies]
lopdf = { version = "=0.36.0", default-features = false }
uuid = { version = "=1.29.0", features = ["v4"] }
base64 = "=0.22.1"
aes = "=0.8.4"
cbc = { version = "=0.1.2", features = ["alloc"] }
cipher = { version = "=0.4.4", features = ["alloc", "block-padding"] }
serde = { version = "=1.0.229", features = ["derive"] }
image = "=0.25.10"
pdfium-render = "=0.8.37"
genpdf = "=0.2.0"
