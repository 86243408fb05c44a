[package]
name = "rustservice"
version = "0.1.0"
edition = "2021"
publish = false

[dependencies]
urlencoding = "=2.1.3"
axum = "=0.8.9"
tokio = { version = "=1.54.1", features = ["rt-multi-thread", "net", "sync"] }
libc = "=0.2.191"
image = { version = "=0.25.10", default-features = false, features = ["jpeg"] }
pdf_oxide = { version = "=0.3.78", features = ["rendering"] }
