[package]
name = "ai_detector"
version = "0.1.0"
edition = "2021"
publish = false

[dependencies]
actix-web = "*"
actix-cors = "*"
actix-files = "*"
reqwest = { version = "*", default-features = false, features = ["json"] }
serde = { version = "*", features = ["derive"] }
serde_json = "*"
