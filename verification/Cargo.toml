[package]
name = "llm_wiki_web"
version = "0.1.0"
edition = "2021"
publish = false

[dependencies]
serde = { version = "1", features = ["derive"] }
serde_json = "1"
walkdir = "2"
zip = { version = "2", default-features = false, features = ["deflate"] }
tiny_http = "0.12"
notify = { version = "6", default-features = false }
chrono = { version = "0.4", default-features = false, features = ["clock", "std"] }
reqwest = { version = "0.12", default-features = false }
tokio = { version = "1", default-features = false, features = ["rt"] }
signal-hook = "0.3"
