[package]
name = "vrc_log_viewer"
version = "0.1.0"
edition = "2021"
publish = false

[dependencies]
regex = "=1.13.1"
chrono = "=0.4.45"
serde = { version = "=1.0.229", features = ["derive"] }
serde_json = "=1.0.154"
tokio = { version = "=1.54.1", features = ["fs", "io-util", "sync", "time", "rt", "macros"] }
dirs = "=6.0.0"
iced = { version = "=0.14.0", default-features = false, features = ["tiny-skia", "tokio", "x11"] }
