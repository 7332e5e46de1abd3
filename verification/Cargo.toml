[package]
name = "pirate_radio"
version = "0.1.0"
edition = "2021"
publish = false

[dependencies]
axum = "=0.8.9"
tokio = { version = "=1.53.2", features = ["full"] }
tower-http = { version = "=0.7.1", features = ["fs"] }

[dev-dependencies]
serde_json = { version = "=1.0.151", features = ["preserve_order"] }
