[package]
name = "mediawalk"
version = "0.1.0"
edition = "2021"
publish = false

[dependencies]
tokio = { version = "*", features = ["rt-multi-thread", "macros"] }
futures = "*"
serde = { version = "*", features = ["derive"] }
serde_yaml = "*"
lazy_static = "*"
