[package]
name = "sim_core"
version = "0.1.0"
edition = "2021"
publish = false

[dependencies]
hexx = "0.24"
anyhow = "1"
bevy_ecs = "0.18"
bevy_reflect = "0.18"
reqwest = { version = "0.12", default-features = false, features = ["json"] }
rmcp = { version = "1", default-features = false, features = ["server", "macros", "transport-io"] }
serde = { version = "1", features = ["derive"] }
serde_json = "1"
tokio = { version = "1", features = ["macros", "rt-multi-thread", "io-std"] }
