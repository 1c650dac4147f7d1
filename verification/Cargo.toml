[package]
name = "rag_core"
version = "0.1.0"
edition = "2021"
publish = false

[dependencies]
clap = { version = "=4.6.7", features = ["cargo"] }
endpoints = "=0.4.0"
reqwest = { version = "=0.11.27", default-features = false, features = ["json"] }
serde_json = "=1.0.154"
text-splitter = { version = "=0.4.5", features = ["tiktoken-rs"] }
tiktoken-rs = "=0.5.9"
tokio = { version = "=1.54.1", features = ["rt", "macros"] }
