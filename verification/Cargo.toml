[package]
name = "notepad_pro_core"
version = "1.0.2"
edition = "2021"
publish = false

[dependencies]
encoding_rs = "0.8"
chardet = "0.2"
serde = { version = "1", features = ["derive"] }
serde_json = "1"
anyhow = "1"
dirs = "5"
tracing = "0.1"
rusqlite = { version = "0.31", features = ["bundled"] }
r2d2 = "0.8"
r2d2_sqlite = "0.24"
clap = { version = "4", features = ["derive"] }

[dev-dependencies]
tempfile = "3"
