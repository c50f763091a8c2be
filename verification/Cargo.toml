[package]
name = "papernet"
version = "0.1.0"
edition = "2021"
publish = false

[dependencies]
fastrand = "2"
serde = { version = "1", features = ["derive"] }
serde_json = "1"
axum = { version = "0.8", features = ["ws"] }
tokio = { version = "1", features = ["full"] }
rusqlite = { version = "*", features = ["bundled"] }
chrono = "0.4"
reqwest = { version = "0.12", default-features = false, features = ["json"] }
tokio-tungstenite = "*"
futures-util = "0.3"
