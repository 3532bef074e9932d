[package]
name = "fossil_delta"
version = "0.1.0"
edition = "2021"
publish = false

[dependencies]
chrono = "=0.4.19"
rusqlite = { version = "=0.21.0", features = ["bundled"] }
actix-web = "=1.0.9"
actix-files = "=0.1.7"
serde = { version = "=1.0.229", features = ["derive"] }
