[package]
name = "reclamation"
version = "0.1.0"
edition = "2021"
publish = false

[dependencies]
serde = { version = "*", features = ["derive"] }
axum = "*"
tokio = { version = "*", features = ["rt-multi-thread", "net", "macros"] }
tower-http = { version = "*", features = ["cors"] }
reqwest = { version = "*", default-features = false, features = ["json"] }

[dev-dependencies]
serde_json = "*"
