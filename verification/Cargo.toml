[package]
name = "reinlinsen"
version = "0.1.0"
edition = "2021"
publish = false

[dependencies]
anyhow = "*"
bollard = "*"
clap = { version = "*", features = ["derive"] }
dirs = "*"
fs_extra = "*"
futures = "*"
serde = { version = "*", features = ["derive"] }
serde_json = "*"
tar = "*"
tempfile = "*"
tokio = { version = "*", features = ["fs", "io-util", "macros", "rt-multi-thread", "sync"] }
tracing = "*"
tracing-subscriber = "*"
