[package]
name = "zho_complexity"
version = "0.1.0"
edition = "2021"
publish = false

[dependencies]
aho-corasick = "=1.1.5"
anyhow = "1"
candle-core = "0.8"
candle-nn = "0.8"
candle-optimisers = "=0.8.0"
clap = { version = "4", features = ["derive"] }
rand = "=0.8.8"
rustc-hash = "=2.1.3"
serde = { version = "1", features = ["derive"] }
serde_json = "=1.0.154"
