[package]
name = "sonica_backend"
version = "0.1.0"
edition = "2021"
publish = false

[dependencies]
axum = { version = "*", features = ["ws", "multipart"] }
notify = "*"
rayon = "*"
rusqlite = { version = "*", features = ["bundled"] }
rustfft = "*"
serde = { version = "*", features = ["derive"] }
serde_json = "*"
symphonia = { version = "*", features = ["wav", "pcm"] }
thiserror = "*"
tokio = { version = "*", features = ["full"] }
tower-http = { version = "*", features = ["cors", "trace"] }
tracing = "*"
tracing-subscriber = { version = "*", features = ["env-filter"] }
uuid = { version = "*", features = ["v4"] }
