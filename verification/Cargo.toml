[package]
name = "eliza"
version = "0.1.0"
edition = "2021"
publish = false

[dependencies]
rand = "*"
serde = { version = "*", features = ["derive"] }
serde_json = "*"
dotenv = "*"
reqwest = { version = "*", features = ["blocking"] }
serenity = "*"
tokio = { version = "*", features = ["rt-multi-thread", "macros"] }
