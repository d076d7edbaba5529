[package]
name = "fuzzy_index"
version = "0.1.0"
edition = "2021"
publish = false

[dependencies]
axum = "*"
directories = "*"
md5 = "*"
serde = { version = "*", features = ["derive"] }
serde_json = "*"
tokio = { version = "*", features = ["rt-multi-thread", "fs", "net"] }
walkdir = "*"

[dev-dependencies]
tempfile = "*"
