[package]
name = "benchmark"
version = "0.1.0"
edition = "2021"
publish = false

[dependencies]
futures = "0.3"
reqwest = "0.12"
serde = { version = "1", features = ["derive"] }
serde_json = "1"
textplots = "*"
tokio = { version = "1", features = ["macros", "rt-multi-thread"] }
