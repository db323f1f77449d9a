[package]
name = "toon"
version = "0.1.0"
edition = "2021"
publish = false

[dependencies]
clap = { version = "*", features = ["derive"] }
reqwest = { version = "*", default-features = false, features = ["rustls-tls"] }
serde_json = "*"
tokio = { version = "*", features = ["macros", "rt-multi-thread"] }
