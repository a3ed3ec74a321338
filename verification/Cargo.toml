[package]
name = "oo_spreadsheet"
version = "0.1.0"
edition = "2021"
publish = false

[dependencies]
serde = { version = "=1.0.229", features = ["derive"] }
serde_json = "1"
thiserror = "=2.0.21"
