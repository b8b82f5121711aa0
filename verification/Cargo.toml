[package]
name = "llm_from_scratch"
version = "0.1.0"
edition = "2021"
publish = false

[dependencies]
anyhow = "*"
clap = { version = "*", features = ["derive"] }
rand = "*"
tch = "*"
tiktoken-rs = "*"
