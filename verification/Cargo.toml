[package]
name = "mimic"
version = "0.1.0"
edition = "2021"
publish = false

[dependencies]
base64 = "*"
time = { version = "*", features = ["serde", "formatting", "parsing"] }
serde = { version = "*", features = ["derive"] }
serde_json = "*"
thiserror = "*"
tokio = { version = "*", features = ["full"] }
futures-util = { version = "*", features = ["sink"] }
reqwest = { version = "*", features = ["json"] }
native-tls = "*"
tokio-tungstenite = { version = "*", features = ["native-tls"] }
tracing = "*"
tracing-subscriber = { version = "*", features = ["env-filter"] }
tracing-appender = "*"
