[package]
name = "labs"
version = "0.1.0"
edition = "2021"
publish = false

[dependencies]
anyhow = "=1.0.104"
askama = "=0.12.1"
eframe = { version = "0.32", default-features = false, features = ["glow", "x11"] }
egui = { version = "0.32", default-features = false }
egui-file-dialog = { version = "0.11", default-features = false }
encoding_rs = "=0.8.42"
scraper = "=0.22.0"
serde = { version = "=1.0.229", features = ["derive"] }
serde_json = "=1.0.154"
