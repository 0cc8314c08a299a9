[package]
name = "inference_gateway"
version = "0.1.0"
edition = "2021"
publish = false

[dependencies]
serde = { version = "*", features = ["derive"] }
serde_json = "*"
ulid = "*"
actix-web = "*"
actix-web-lab = "*"
actix-cors = "*"
reqwest = { version = "*", default-features = false, features = ["json"] }
thiserror = "*"
anyhow = "*"
tokio-stream = "*"
tracing = "*"
tracing-core = "*"
tracing-actix-web = "*"
