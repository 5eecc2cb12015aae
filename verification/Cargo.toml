[package]
name = "url_clipper"
version = "0.1.0"
edition = "2021"
publish = false

[dependencies]
anyhow = "1"
serde = { version = "1", features = ["derive"] }
serde_derive = "1"
serde_json = "1"
yew = { version = "0.18", features = ["web_sys"] }
