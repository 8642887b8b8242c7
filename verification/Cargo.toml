[package]
name = "scatter_gather"
version = "0.2.1"
edition = "2021"
publish = false

[dependencies]
rand = "0.8"
rayon = "1"
futures = "0.3"
tokio = { version = "1", features = ["full"] }
tokio-tungstenite = "*"
serde = { version = "1", features = ["derive"] }
serde_json = "1"
