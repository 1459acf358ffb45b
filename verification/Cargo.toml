[package]
name = "howto_openai"
version = "0.1.0"
edition = "2021"
publish = false

[dependencies]
serde_json = "*"
aionic = "*"
clap = "*"
tokio = { version = "*", features = ["macros", "rt-multi-thread"] }
