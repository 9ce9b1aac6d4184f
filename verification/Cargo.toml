[package]
name = "process_bridge"
version = "0.1.0"
edition = "2021"
publish = false

[dependencies]
base64 = "0.22"
futures-util = "0.3"
portable-pty = "0.8"
serde = { version = "1", features = ["derive"] }
tauri = { version = "2", default-features = false }
tokio = { version = "1", features = ["rt-multi-thread", "macros", "net", "process", "io-util", "sync"] }
tokio-tungstenite = "0.24"
uuid = { version = "1", features = ["v4"] }
