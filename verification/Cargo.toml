[package]
name = "works_archive"
version = "0.1.0"
edition = "2021"
publish = false

[dependencies]
axum = "*"
pulldown-cmark = "*"
serde = { version = "*", features = ["derive"] }
tokio = { version = "*", features = ["rt-multi-thread", "macros", "net", "fs"] }
tower-http = { version = "*", features = ["fs"] }
walkdir = "*"
