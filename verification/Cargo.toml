[package]
name = "xc_ocr"
version = "0.1.0"
edition = "2021"
publish = false

[dependencies]
docx-rs = "=0.4.22"
zip = { version = "=0.6.6", default-features = false, features = ["deflate"] }
serde = { version = "=1.0.229", features = ["derive"] }
serde_json = "=1.0.154"
base64 = "=0.22.1"
image = { version = "=0.25.10", default-features = false, features = ["png"] }
imageproc = { version = "=0.25.1", default-features = false }
ab_glyph = "=0.2.32"
thiserror = "=1.0.69"
log = "=0.4.35"
tempfile = "=3.27.0"
parking_lot = "=0.12.5"
rayon = "=1.12.0"
ort = { version = "=2.0.0-rc.15", default-features = false, features = ["load-dynamic"] }

[dev-dependencies]
regex = "=1.13.1"
