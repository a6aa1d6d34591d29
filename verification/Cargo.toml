[package]
name = "sider"
version = "0.1.0"
edition = "2021"
publish = false

[dependencies]
bytes = "1"
getrandom = "0.3"
serde_json = "1"
sha2 = "0.10"
thiserror = "2"
tokio = { version = "1", features = ["full"] }
tracing = "0.1"
tracing-subscriber = "0.3"
