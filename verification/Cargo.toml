[package]
name = "agamotto"
version = "0.1.0"
edition = "2021"
publish = false

[dependencies]
serde = { version = "1", features = ["derive"] }
serde_json = "1"
maplit = "1"
dotenvy = "0.15"
convex = "0.10"
