[package]
name = "codextool"
version = "0.1.0"
edition = "2021"
publish = false

[dependencies]
encoding_rs = "=0.8.44"
toml_edit = "=0.25.17"
serde_json = "=1.0.154"
time = { version = "=0.3.55", features = ["parsing"] }
reqwest = { version = "=0.12.28", default-features = false }
clap = { version = "=4.6.7", features = ["derive"] }
rusqlite = { version = "=0.41.1", features = ["bundled"] }
uuid = { version = "1", features = ["v4"] }
dirs = "*"
