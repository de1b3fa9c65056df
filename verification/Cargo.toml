[package]
name = "txt2mp3"
version = "0.1.0"
edition = "2021"
publish = false

[dependencies]
anyhow = "1"
chrono = "0.4"
clap = { version = "4", features = ["derive"] }
kokoro-tts = "*"
shine-rs = "*"
tokio = { version = "1", features = ["macros", "rt-multi-thread", "sync"] }
tracing = "0.1"
tracing-appender = "0.2"
tracing-indicatif = "*"
tracing-subscriber = "0.3"
tracing-unwrap = "*"
