[package]
name = "rust_rim"
version = "0.1.0"
edition = "2021"
publish = false

[dependencies]
quick-xml = "0.38"
serde = { version = "1", features = ["derive"] }
serde_json = "1"
directories = "6"
ureq = { version = "3", features = ["json"] }
flate2 = "1"
tar = "0.4"
zip = "2"
libc = "0.2"
anyhow = "1"
thiserror = "2"
tracing = "0.1"
tracing-subscriber = { version = "0.3", features = ["env-filter"] }
