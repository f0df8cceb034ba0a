[package]
name = "school_desk"
version = "0.1.0"
edition = "2021"
publish = false

[dependencies]
axum = "0.7"
rusqlite = { version = "0.31", features = ["bundled"] }
serde = { version = "1", features = ["derive"] }
serde_json = "1"
tokio = { version = "1", features = ["full"] }
tower-http = { version = "0.5", features = ["fs"] }
walkdir = "2"
