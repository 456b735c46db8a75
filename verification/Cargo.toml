[package]
name = "retreival"
version = "0.1.0"
edition = "2021"
publish = false

[dependencies]
anyhow = "=1.0.104"
async-trait = "=0.1.92"
futures = "=0.3.34"
serde = { version = "=1.0.229", features = ["derive"] }
tantivy = "0.22"
tokio = { version = "=1.53.2", features = ["rt-multi-thread", "macros", "fs"] }
