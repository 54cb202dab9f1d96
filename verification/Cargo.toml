[package]
name = "earthnet_node"
version = "0.2.0"
edition = "2021"
publish = false

[dependencies]
axum = "0.7"
ed25519-dalek = "2"
prost = "0.13"
rand = "0.8"
tokio = { version = "1", features = ["macros", "net", "rt-multi-thread", "sync"] }
tracing = "0.1"
tracing-subscriber = { version = "0.3", features = ["env-filter"] }
