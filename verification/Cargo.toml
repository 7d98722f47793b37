[package]
name = "koikatsu_dedupe"
version = "0.1.0"
edition = "2021"
publish = false

[dependencies]
rusqlite = { version = "*", features = ["bundled"] }
twox-hash = "*"
serde = { version = "1", features = ["derive"] }
serde_json = "1"
