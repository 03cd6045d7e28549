[package]
name = "transcriber"
version = "0.1.0"
edition = "2021"
publish = false

[dependencies]
tokio = { version = "1", features = ["process", "io-util", "rt-multi-thread", "macros"] }
walkdir = "2"
notify = "*"
notify-debouncer-full = "*"
