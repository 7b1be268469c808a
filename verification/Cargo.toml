[package]
name = "subtitles"
version = "0.1.0"
edition = "2021"
publish = false

[dependencies]
hound = "*"
anyhow = "*"
clap = { version = "*", features = ["derive", "env"] }
crossbeam-channel = "*"
ctrlc = "*"
reqwest = { version = "*", default-features = false, features = ["blocking", "multipart"] }
serde = { version = "*", features = ["derive"] }
serde_json = "*"
tracing = "*"
tracing-subscriber = { version = "*", features = ["env-filter"] }
