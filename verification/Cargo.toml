[package]
name = "log_pipeline"
version = "0.1.0"
edition = "2021"
publish = false

[dependencies]
anyhow = "1"
chrono = "0.4"
flate2 = "1"
inquire = { version = "0.7", features = ["date"] }
reqwest = { version = "0.12", default-features = false, features = ["gzip"] }
tokio = { version = "1", features = ["macros", "rt-multi-thread"] }
