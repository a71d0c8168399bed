[package]
name = "viva_chat"
version = "0.1.0"
edition = "2021"
publish = false

[dependencies]
serde = { version = "1", features = ["derive"] }
serde_json = "1"
chrono = "0.4"
uuid = { version = "1", features = ["v4"] }
axum = { version = "0.7", features = ["ws"] }
tokio = { version = "1", features = ["full"] }
futures = "0.3"
mongodb = "2"
clap = { version = "4", features = ["derive"] }
terminal_size = "0.3"
tokio-tungstenite = "0.21"
