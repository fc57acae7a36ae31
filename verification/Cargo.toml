[package]
name = "hemolymph_search"
version = "0.1.0"
edition = "2021"
publish = false

[dependencies]
hemoglobin = "=0.2.0"
serde = { version = "=1.0.229", features = ["derive"] }
serde_json = "=1.0.151"
