[package]
name = "http_compression"
version = "0.1.0"
edition = "2021"
publish = false

[dependencies]
compression-codecs = { version = "0.4", features = ["brotli", "deflate", "gzip", "zstd"] }
compression-core = "0.4"
http = "1"
pin-project-lite = "0.2"
