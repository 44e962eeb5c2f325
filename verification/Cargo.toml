[package]
name = "follow_graph"
version = "0.1.0"
edition = "2021"
publish = false

[dependencies]
nostr-sdk = "*"
tokio = { version = "*", features = ["rt-multi-thread", "macros", "sync", "time"] }
clap = { version = "*", features = ["cargo"] }
regex = "*"
serde = { version = "*", features = ["derive"] }
toml = "*"
itertools = "*"
async-utility = "*"
