[package]
name = "qdrant"
version = "0.1.0"
edition = "2021"
publish = false

[dependencies]
actix-web = "*"
schemars = "*"
serde = { version = "*", features = ["derive"] }
