[package]
name = "tetris"
version = "0.1.0"
edition = "2021"
publish = false

[dependencies]
rand = "0.9"
chrono = "0.4"
iced = { version = "0.13", default-features = false, features = ["canvas", "tiny-skia", "tokio"] }
tracing-subscriber = "0.3"
