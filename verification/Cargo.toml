[package]
name = "tagdb"
version = "0.1.0"
edition = "2021"
publish = false

[dependencies]
clap = { version = "4", features = ["derive"] }
lazy_static = "1"
rocket = "0.5"
rusqlite = { version = "0.40", features = ["bundled"] }
serde_json = "1"
tera = "1"
webbrowser = "1"
