[package]
name = "stack_rewrite"
version = "0.1.0"
edition = "2021"
publish = false

[dependencies]
anyhow = "1"
bitflags = "2"
gix = "*"
rmcp = "*"
serde = { version = "1", features = ["derive"] }
serde_json = "1"
tokio = { version = "1", features = ["io-std", "rt", "macros"] }
