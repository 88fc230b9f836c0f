[package]
name = "ferrules"
version = "0.1.0"
edition = "2021"
publish = false

[dependencies]
regex = "1"
kmeans = "*"
serde = { version = "1", features = ["derive"] }
serde_json = "1"
clap = { version = "4", features = ["derive", "env"] }
tokio = { version = "1", features = ["rt-multi-thread", "macros", "sync", "time"] }
anyhow = "1"
image = "0.25"
pdfium-render = "*"
build_html = "2"
html2md = "*"
indicatif = "0.17"
uuid = { version = "1", features = ["v4"] }
ort = { version = "=2.0.0-rc.13", default-features = false }
ndarray = "0.16"
