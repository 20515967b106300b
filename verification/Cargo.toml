[package]
name = "fennel-ls"
version = "0.1.0"
edition = "2021"
publish = false

[dependencies]
async-trait = "0.1"
clap = { version = "4", features = ["derive"] }
dashmap = "6"
env_logger = "0.11"
full_moon = "2"
log = "0.4"
mlua = { version = "0.9", features = ["luajit", "vendored", "serialize"] }
serde = { version = "1", features = ["derive"] }
serde_json = "1"
tokio = { version = "1", features = ["full"] }
tower-lsp = "0.20"

[dev-dependencies]
tempfile = "3"
