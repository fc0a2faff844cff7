[package]
name = "biomeat"
version = "0.1.0"
edition = "2021"
publish = false

[dependencies]
anyhow = "1"
clap = { version = "4", features = ["derive"] }
futures = "0.3"
governor = "0.6"
indicatif = "0.17"
mangadex-api = "=2.3.1"
mangadex-api-types-rust = "0.4"
reqwest = "0.11"
tokio = { version = "1", features = ["macros", "rt-multi-thread"] }
url = "2"
uuid = "1"
