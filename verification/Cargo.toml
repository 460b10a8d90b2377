[package]
name = "taureria"
version = "0.1.0"
edition = "2021"
publish = false

[dependencies]
anyhow = "=1.0.104"
base64 = "=0.21.7"
chrono = "=0.4.45"
image = { version = "=0.25.10", default-features = false, features = ["bmp", "dds", "ff", "gif", "hdr", "ico", "jpeg", "png", "pnm", "qoi", "tga", "tiff", "webp"] }
s-zip = "=0.15.0"
serde = { version = "=1.0.229", features = ["derive"] }
serde_json = "=1.0.154"
tokio = { version = "=1.54.1", features = ["sync"] }
uuid = { version = "=1.29.0", features = ["v4"] }
zip = { version = "=2.6.1", default-features = false, features = ["aes-crypto", "deflate", "deflate64", "lzma"] }
